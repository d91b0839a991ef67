use link_crawler::layout::tree_picture;
use link_crawler::link_tree::{IdCounter, LinkTreeNode};
use link_crawler::page::{build_response, draw_tree, get_canvas, page_content};
use link_crawler::stats::links_message_string;
use std::collections::HashMap;

fn leaf(link: &str, ids: &mut IdCounter) -> LinkTreeNode {
    LinkTreeNode::create(&link.to_string(), ids)
}

#[test]
fn draw_tree_writes_one_box() {
    let mut ids = IdCounter::new();
    let n = leaf("x", &mut ids);
    assert_eq!(
        draw_tree(&n, 0),
        "context.rect(100, 0, nodeWidth, nodeHeight);\n        context.fillStyle = 'yellow';\n        context.fill();\n        context.lineWidth = 1;\n        context.strokeStyle = 'black';\n"
    );
    assert!(draw_tree(&n, 75).starts_with("context.rect(100, 75, nodeWidth"));
}

#[test]
fn get_canvas_wraps_the_box_in_a_script() {
    let mut ids = IdCounter::new();
    let n = leaf("x", &mut ids);
    let canvas = get_canvas(&n);
    assert!(canvas.starts_with("<canvas id=\"myCanvas\"></canvas>\n\n    <script>\n"));
    assert!(canvas.contains("var nodeHeight = 50;\n\n        context.beginPath();context.rect(100, 0,"));
    assert!(canvas.ends_with("context.strokeStyle = 'black';\ncontext.stroke()\n        </script>"));
}

#[test]
fn page_content_frames_the_json() {
    let mut ids = IdCounter::new();
    let n = leaf("x", &mut ids);
    let page = page_content(&n, "{\"id\":0}");
    assert!(page.starts_with("<head><meta charset=\"UTF-8\"> </head><pre>{\"id\":0}\n</pre><canvas id=\"myCanvas\"></canvas>"));
    assert!(page.contains("</script>\n<canvas id=\"myCanvas\" width=\"578\" height=\"200\"></canvas>\n"));
    assert!(page.ends_with("context.stroke();\n                                            </script>"));
}

#[test]
fn build_response_counts_bytes() {
    let r = build_response("héllo");
    assert_eq!(
        r,
        "HTTP/1.1 200 OK\r\nDate: Mon, 27 Jul 2009 12:28:53 GMT\r\nServer: Apache/2.2.14 (Win32)\r\nLast-Modified: Wed, 22 Jul 2009 19:15:56 GMT\r\nContent-Length: 6\r\nContent-Type: text/html\r\nConnection: close\r\n\r\nhéllo"
    );
    assert!(build_response("").contains("Content-Length: 0\r\n"));
}

#[test]
fn links_message_has_the_three_counts() {
    assert_eq!(links_message_string(12, 3, 45), "Found 12 links; added 3; links in vector 45");
}

#[test]
fn tree_picture_spreads_levels() {
    let mut ids = IdCounter::new();
    let mut root = leaf("r", &mut ids);
    let a = leaf("a", &mut ids);
    let b = leaf("b", &mut ids);
    root.add_child(a);
    root.add_child(b);
    let mut depth_map = HashMap::new();
    depth_map.insert(1u32, 2u32);
    let p = tree_picture(&root, 10, 3, &depth_map).unwrap();
    assert_eq!((p.img_width, p.img_height, p.radius), (400, 480, 20));
    assert_eq!(p.marks.len(), 3);
    let m = &p.marks;
    assert_eq!((m[0].id, m[0].center_x, m[0].center_y, m[0].from_x, m[0].from_y), (0, 200, 20, 200, 20));
    assert_eq!((m[0].text_x, m[0].text_y), (193, 13));
    assert_eq!((m[1].id, m[1].center_x, m[1].center_y, m[1].from_x, m[1].from_y), (1, 133, 100, 200, 20));
    assert_eq!((m[2].id, m[2].center_x, m[2].center_y, m[2].from_x, m[2].from_y), (2, 266, 100, 200, 20));
}

#[test]
fn tree_picture_without_level_counts_stays_on_one_row() {
    let mut ids = IdCounter::new();
    let mut root = leaf("r", &mut ids);
    root.add_child(leaf("a", &mut ids));
    let p = tree_picture(&root, 4, 1, &HashMap::new()).unwrap();
    assert_eq!((p.marks[1].center_x, p.marks[1].center_y), (160, 20));
}

#[test]
fn tree_picture_refuses_sizes_out_of_range() {
    let mut ids = IdCounter::new();
    let root = leaf("r", &mut ids);
    assert!(tree_picture(&root, u32::MAX, 1, &HashMap::new()).is_none());
    assert!(tree_picture(&root, 1, u32::MAX / 100, &HashMap::new()).is_none());
    assert!(tree_picture(&root, 0, 1, &HashMap::new()).is_none());
}
