//! Character-level helpers on strings, each proved against a spec function.

use vstd::prelude::*;

verus! {

/// The views of a sequence of strings.
pub open spec fn views(v: Seq<String>) -> Seq<Seq<char>> {
    v.map_values(|s: String| s@)
}

/// Calls `String::push`; the contract claims that the string's characters
/// afterwards are those before with `c` at the end.
#[verifier::external_body]
pub(crate) fn push_char(s: &mut String, c: char)
    ensures
        final(s)@ == old(s)@.push(c),
{
    s.push(c);
}

/// The characters of `s`, in order.
pub fn chars_of(s: &str) -> (r: Vec<char>)
    ensures
        r@ == s@,
{
    let mut r: Vec<char> = Vec::new();
    for c in it: s.chars()
        invariant
            r@ == it.seq().take(it.index() as int),
            it.seq() == s@,
    {
        r.push(c);
    }
    r
}

} // verus!

verus! {

/// The character of a decimal digit `d < 10`.
pub open spec fn digit_char(d: nat) -> char {
    ((d + 48) as u32) as char
}

/// The decimal numeral of `n`, without sign or leading zeros ("0" for zero).
pub open spec fn decimal(n: nat) -> Seq<char>
    decreases n,
{
    if n < 10 {
        seq![digit_char(n)]
    } else {
        decimal(n / 10).push(digit_char(n % 10))
    }
}

/// Writes `n` in decimal, as `format!("{}", n)` does for an unsigned integer.
pub fn decimal_string(n: u64) -> (r: String)
    ensures
        r@ == decimal(n as nat),
{
    let mut digits: Vec<char> = Vec::new();
    let mut m: u64 = n;
    // digits holds the numeral of the part of n already consumed, reversed
    loop
        invariant_except_break
            0 < digits.len() ==> decimal(n as nat) == decimal(m as nat) + digits@.reverse(),
            digits.len() == 0 ==> m == n,
        ensures
            decimal(n as nat) =~= digits@.reverse(),
        decreases m,
    {
        let d: u64 = m % 10;
        let c: char = ((d as u8) + 48u8) as char;
        assert(c == digit_char(d as nat));
        let ghost before = digits@;
        digits.push(c);
        proof {
            assert(digits@.reverse() =~= seq![c] + before.reverse());
        }
        if m < 10 {
            assert(decimal(m as nat) == seq![c]);
            assert(decimal(n as nat) =~= digits@.reverse()) by {
                if before.len() > 0 {
                    assert(decimal(n as nat) == decimal(m as nat) + before.reverse());
                }
            }
            break;
        }
        let next: u64 = m / 10;
        assert(decimal(m as nat) == decimal(next as nat).push(c));
        assert(decimal(n as nat) =~= decimal(next as nat) + digits@.reverse()) by {
            if before.len() > 0 {
                assert(decimal(n as nat) == decimal(m as nat) + before.reverse());
            }
        }
        m = next;
    }
    let mut r = String::new();
    let mut i: usize = digits.len();
    while i > 0
        invariant
            i <= digits.len(),
            r@ =~= digits@.reverse().take((digits.len() - i) as int),
            decimal(n as nat) =~= digits@.reverse(),
        decreases i,
    {
        i = i - 1;
        push_char(&mut r, digits[i]);
    }
    r
}

} // verus!

verus! {

/// `n` occurs in `h` starting at position `i`.
pub open spec fn occurs_at(h: Seq<char>, n: Seq<char>, i: int) -> bool {
    0 <= i && i + n.len() <= h.len() && h.subrange(i, i + n.len()) == n
}

/// `n` occurs somewhere in `h` (the empty sequence occurs in every sequence).
pub open spec fn has_infix(h: Seq<char>, n: Seq<char>) -> bool {
    exists|i: int| #[trigger] occurs_at(h, n, i)
}

fn matches_at(h: &Vec<char>, n: &Vec<char>, i: usize) -> (r: bool)
    requires
        i + n.len() <= h.len(),
    ensures
        r == occurs_at(h@, n@, i as int),
{
    let mut k: usize = 0;
    while k < n.len()
        invariant
            i + n.len() <= h.len(),
            k <= n.len(),
            forall|j: int| 0 <= j < k ==> h@[i + j] == n@[j],
        decreases n.len() - k,
    {
        if h[i + k] != n[k] {
            assert(h@.subrange(i as int, i + n.len())[k as int] != n@[k as int]);
            return false;
        }
        k = k + 1;
    }
    assert(h@.subrange(i as int, i + n.len()) =~= n@);
    true
}

/// Whether `needle` occurs in `hay`, as `str::contains` with a string pattern.
pub fn contains(hay: &str, needle: &str) -> (r: bool)
    ensures
        r == has_infix(hay@, needle@),
{
    let h = chars_of(hay);
    let n = chars_of(needle);
    if n.len() > h.len() {
        assert forall|i: int| !occurs_at(h@, n@, i) by {}
        return false;
    }
    let last: usize = h.len() - n.len();
    let mut i: usize = 0;
    loop
        invariant
            last == h.len() - n.len(),
            n.len() <= h.len(),
            i <= last,
            forall|j: int| 0 <= j < i ==> !occurs_at(h@, n@, j),
            h@ == hay@,
            n@ == needle@,
        ensures
            i == last,
            !occurs_at(h@, n@, i as int),
        decreases last - i,
    {
        if matches_at(&h, &n, i) {
            assert(occurs_at(h@, n@, i as int));
            return true;
        }
        if i == last {
            break;
        }
        i = i + 1;
    }
    assert forall|j: int| !occurs_at(h@, n@, j) by {
        if 0 <= j < i {
        } else if j == i {
        }
    }
    false
}

} // verus!

verus! {

/// The first position at or after `i` where `sep` occurs in `s`, or -1.
pub open spec fn find_from(s: Seq<char>, sep: Seq<char>, i: int) -> int
    decreases s.len() + 1 - i,
{
    if i < 0 || i + sep.len() > s.len() {
        -1
    } else if occurs_at(s, sep, i) {
        i
    } else {
        find_from(s, sep, i + 1)
    }
}

/// Where `find_from` points: an occurrence at or after `i` with none before it,
/// or -1 where there is none.
pub proof fn lemma_find_from(s: Seq<char>, sep: Seq<char>, i: int)
    requires
        0 <= i,
    ensures
        find_from(s, sep, i) == -1 || (i <= find_from(s, sep, i) && find_from(s, sep, i) + sep.len() <= s.len()
            && occurs_at(s, sep, find_from(s, sep, i))),
        find_from(s, sep, i) == -1 ==> forall|j: int| i <= j ==> !#[trigger] occurs_at(s, sep, j),
        forall|j: int| i <= j < find_from(s, sep, i) ==> !#[trigger] occurs_at(s, sep, j),
    decreases s.len() + 1 - i,
{
    if i + sep.len() <= s.len() && !occurs_at(s, sep, i) {
        lemma_find_from(s, sep, i + 1);
    }
}

/// The pieces of `s` between the occurrences of `sep` (a nonempty
/// separator), taken from the left without overlap, empty pieces kept: what
/// `str::split` with a string pattern yields.
pub open spec fn split_pieces(s: Seq<char>, sep: Seq<char>) -> Seq<Seq<char>>
    decreases s.len(),
{
    if sep.len() == 0 {
        seq![s]
    } else {
        let i = find_from(s, sep, 0);
        if i < 0 {
            seq![s]
        } else {
            proof {
                lemma_find_from(s, sep, 0);
            }
            seq![s.take(i)] + split_pieces(s.skip(i + sep.len()), sep)
        }
    }
}

/// `pieces` joined with `sep` between each two.
pub open spec fn join_pieces(pieces: Seq<Seq<char>>, sep: Seq<char>) -> Seq<char>
    decreases pieces.len(),
{
    if pieces.len() == 0 {
        Seq::empty()
    } else if pieces.len() == 1 {
        pieces[0]
    } else {
        pieces[0] + sep + join_pieces(pieces.drop_first(), sep)
    }
}

/// Joining the pieces with the separator gives back the text, and no piece
/// holds the separator.
pub proof fn lemma_split_join(s: Seq<char>, sep: Seq<char>)
    requires
        sep.len() > 0,
    ensures
        join_pieces(split_pieces(s, sep), sep) == s,
        forall|k: int| 0 <= k < split_pieces(s, sep).len() ==> !has_infix(#[trigger] split_pieces(s, sep)[k], sep),
        split_pieces(s, sep).len() >= 1,
    decreases s.len(),
{
    lemma_find_from(s, sep, 0);
    let i = find_from(s, sep, 0);
    if i < 0 {
        assert(!has_infix(s, sep)) by {
            assert forall|j: int| !occurs_at(s, sep, j) by {
                if 0 <= j {
                }
            }
        }
        assert(split_pieces(s, sep)[0] == s);
    } else {
        let rest = s.skip(i + sep.len());
        lemma_split_join(rest, sep);
        let tail = split_pieces(rest, sep);
        let all = split_pieces(s, sep);
        assert(all == seq![s.take(i)] + tail);
        assert(all.drop_first() =~= tail);
        assert(all.len() >= 2);
        assert(s.subrange(i, i + sep.len()) == sep);
        assert(s =~= s.take(i) + sep + rest);
        assert forall|k: int| 0 <= k < all.len() implies !has_infix(#[trigger] all[k], sep) by {
            if k == 0 {
                assert forall|j: int| !occurs_at(s.take(i), sep, j) by {
                    if occurs_at(s.take(i), sep, j) {
                        assert(s.subrange(j, j + sep.len()) =~= s.take(i).subrange(j, j + sep.len()));
                        assert(occurs_at(s, sep, j));
                    }
                }
            } else {
                assert(all[k] == tail[k - 1]);
            }
        }
    }
}

fn find_in(h: &Vec<char>, n: &Vec<char>) -> (r: Option<usize>)
    requires
        n.len() > 0,
    ensures
        r is None ==> find_from(h@, n@, 0) == -1,
        r matches Some(i) ==> i == find_from(h@, n@, 0),
{
    proof {
        lemma_find_from(h@, n@, 0);
    }
    if n.len() > h.len() {
        return None;
    }
    let last: usize = h.len() - n.len();
    let mut i: usize = 0;
    loop
        invariant
            last == h.len() - n.len(),
            n.len() <= h.len(),
            n.len() > 0,
            i <= last,
            find_from(h@, n@, 0) == find_from(h@, n@, i as int),
        decreases last - i,
    {
        if matches_at(h, n, i) {
            return Some(i);
        }
        if i == last {
            assert(find_from(h@, n@, i + 1) == -1);
            return None;
        }
        i = i + 1;
    }
}

fn string_from_chars(cs: &Vec<char>, from: usize, to: usize) -> (r: String)
    requires
        from <= to <= cs.len(),
    ensures
        r@ == cs@.subrange(from as int, to as int),
{
    let mut r = String::new();
    let mut k: usize = from;
    while k < to
        invariant
            from <= k <= to <= cs.len(),
            r@ =~= cs@.subrange(from as int, k as int),
        decreases to - k,
    {
        push_char(&mut r, cs[k]);
        k = k + 1;
    }
    r
}

/// The pieces of `text` between the occurrences of `sep`, as
/// `text.split(sep)` yields them.
pub fn split_text(text: &str, sep: &str) -> (r: Vec<String>)
    requires
        sep@.len() > 0,
    ensures
        views(r@) == split_pieces(text@, sep@),
{
    let n = chars_of(sep);
    let mut rest = chars_of(text);
    let mut pieces: Vec<String> = Vec::new();
    loop
        invariant
            n@ == sep@,
            n.len() > 0,
            views(pieces@) + split_pieces(rest@, n@) == split_pieces(text@, sep@),
        decreases rest.len(),
    {
        match find_in(&rest, &n) {
            None => {
                let piece = string_from_chars(&rest, 0, rest.len());
                let ghost before = pieces@;
                pieces.push(piece);
                proof {
                    assert(rest@.subrange(0, rest.len() as int) =~= rest@);
                    assert(views(pieces@) =~= views(before).push(rest@));
                    assert(split_pieces(rest@, n@) == seq![rest@]);
                }
                return pieces;
            },
            Some(i) => {
                proof {
                    lemma_find_from(rest@, n@, 0);
                }
                let piece = string_from_chars(&rest, 0, i);
                let next = i + n.len();
                let mut tail: Vec<char> = Vec::new();
                let mut k: usize = next;
                while k < rest.len()
                    invariant
                        next <= k <= rest.len(),
                        tail@ =~= rest@.subrange(next as int, k as int),
                    decreases rest.len() - k,
                {
                    tail.push(rest[k]);
                    k = k + 1;
                }
                let ghost before = pieces@;
                pieces.push(piece);
                proof {
                    assert(rest@.subrange(0, i as int) =~= rest@.take(i as int));
                    assert(tail@ =~= rest@.skip(next as int));
                    assert(views(pieces@) =~= views(before).push(rest@.take(i as int)));
                    assert(split_pieces(rest@, n@) == seq![rest@.take(i as int)] + split_pieces(tail@, n@));
                    assert(views(pieces@) + split_pieces(tail@, n@) =~= views(before) + split_pieces(rest@, n@));
                }
                rest = tail;
            },
        }
    }
}

} // verus!

verus! {

/// The number that a string of decimal digits writes.
pub open spec fn digits_value(s: Seq<char>) -> int
    decreases s.len(),
{
    if s.len() == 0 {
        0
    } else {
        digits_value(s.drop_last()) * 10 + (s.last() as int - '0' as int)
    }
}

/// `decimal(n)` is made of the digits '0' to '9', writes `n`, and starts
/// with a '0' only where it is "0".
pub proof fn lemma_decimal_writes(n: nat)
    ensures
        decimal(n).len() > 0,
        forall|i: int| 0 <= i < decimal(n).len() ==> '0' <= #[trigger] decimal(n)[i] <= '9',
        digits_value(decimal(n)) == n,
        decimal(n)[0] == '0' ==> n == 0,
    decreases n,
{
    if n < 10 {
        assert(decimal(n) == seq![digit_char(n)]);
        assert(seq![digit_char(n)].drop_last() =~= Seq::<char>::empty());
        assert(digit_char(n) as int == n + 48);
        assert('0' as int == 48);
        assert(digits_value(Seq::<char>::empty()) == 0);
        assert(digits_value(seq![digit_char(n)]) == n);
    } else {
        lemma_decimal_writes(n / 10);
        let d = decimal(n / 10);
        assert(decimal(n) == d.push(digit_char(n % 10)));
        assert(d.push(digit_char(n % 10)).drop_last() =~= d);
        assert(d.push(digit_char(n % 10))[0] == d[0]);
        assert(n == (n / 10) * 10 + n % 10);
        assert(digit_char(n % 10) as int == n % 10 + 48);
        assert('0' as int == 48);
        assert(digits_value(d.push(digit_char(n % 10))) == digits_value(d) * 10 + (n % 10));
    }
}

} // verus!
