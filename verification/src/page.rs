//! The text of the statistics page: the canvas script that draws the tree,
//! the page around it, and the HTTP response that carries the page.

use vstd::prelude::*;
use crate::link_tree::LinkTreeNode;
use crate::text::{decimal, decimal_string};

verus! {

pub const CANVAS_OPEN: &'static str = "<canvas id=\"myCanvas\"></canvas>\n\n    <script>\n        var canvas = document.getElementById('myCanvas');\n        canvas.width = document.body.clientWidth;\n        canvas.height = document.body.clientHeight;\n        var context = canvas.getContext('2d');\n        var nodeWidth = 100;\n        var nodeHeight = ";
pub const CANVAS_AFTER_HEIGHT: &'static str = ";\n\n        context.beginPath();";
pub const CANVAS_CLOSE: &'static str = "context.stroke()\n        </script>";
pub const RECT_OPEN: &'static str = "context.rect(";
pub const RECT_SEP: &'static str = ", ";
pub const RECT_CLOSE: &'static str = ", nodeWidth, nodeHeight);\n        context.fillStyle = 'yellow';\n        context.fill();\n        context.lineWidth = 1;\n        context.strokeStyle = 'black';\n";
pub const PAGE_HEAD: &'static str = "<head><meta charset=\"UTF-8\"> </head><pre>";
pub const PRE_CLOSE: &'static str = "\n</pre>";
pub const LINE_END: &'static str = "\n";
pub const PAGE_SCRIPT: &'static str = "<canvas id=\"myCanvas\" width=\"578\" height=\"200\"></canvas>\n                                            <script>\n                                              var canvas = document.getElementById('myCanvas');\n                                              canvas.width = document.body.clientWidth;\n                                              canvas.height = document.body.clientHeight;\n                                              var context = canvas.getContext('2d');\n\n                                              context.beginPath();\n                                              context.rect(188, 50, 200, 100);\n                                              context.fillStyle = 'yellow';\n                                              context.fill();\n                                              context.lineWidth = 1;\n                                              context.strokeStyle = 'black';\n\n                                              context.moveTo(288, 150);\n                                              context.lineTo(150, 200);\n\n                                              context.moveTo(288, 150);\n                                              context.lineTo(288 + (288 - 150), 200);\n\n                                              context.stroke();\n                                            </script>";
pub const RESPONSE_HEAD: &'static str = "HTTP/1.1 200 OK\r\nDate: Mon, 27 Jul 2009 12:28:53 GMT\r\nServer: Apache/2.2.14 (Win32)\r\nLast-Modified: Wed, 22 Jul 2009 19:15:56 GMT\r\nContent-Length: ";
pub const RESPONSE_AFTER_LENGTH: &'static str = "\r\nContent-Type: text/html\r\nConnection: close\r\n\r\n";

/// The height of a node's box on the canvas.
pub const NODE_HEIGHT: u32 = 50;

/// The horizontal position of a node's box on the canvas.
pub const NODE_X: u32 = 100;

/// The script lines that draw one node's box at height `y`.
pub open spec fn rect_text(y: nat) -> Seq<char> {
    RECT_OPEN@ + decimal(NODE_X as nat) + RECT_SEP@ + decimal(y) + RECT_CLOSE@
}

/// The canvas and the script that draws the tree.
pub open spec fn canvas_text() -> Seq<char> {
    CANVAS_OPEN@ + decimal(NODE_HEIGHT as nat) + CANVAS_AFTER_HEIGHT@ + rect_text(0) + CANVAS_CLOSE@
}

/// The statistics page, around the tree written as JSON.
pub open spec fn page_text(tree_json: Seq<char>) -> Seq<char> {
    PAGE_HEAD@ + tree_json + PRE_CLOSE@ + canvas_text() + LINE_END@ + PAGE_SCRIPT@
}

/// An HTTP response carrying `content`; its Content-Length is the number of
/// bytes of `content` in UTF-8.
pub open spec fn response_text(content: Seq<char>) -> Seq<char> {
    RESPONSE_HEAD@ + decimal(vstd::utf8::encode_utf8(content).len()) + RESPONSE_AFTER_LENGTH@ + content
}

/// The script lines that draw the box of `node` at height `y`.
pub fn draw_tree(node: &LinkTreeNode, y: u32) -> (r: String)
    ensures
        r@ == rect_text(y as nat),
{
    let mut data = String::new();
    data.append(RECT_OPEN);
    data.append(decimal_string(NODE_X as u64).as_str());
    data.append(RECT_SEP);
    data.append(decimal_string(y as u64).as_str());
    data.append(RECT_CLOSE);
    data
}

/// The canvas, with the script that draws the tree from its root.
pub fn get_canvas(root_node: &LinkTreeNode) -> (r: String)
    ensures
        r@ == canvas_text(),
{
    let mut r = String::from_str(CANVAS_OPEN);
    r.append(decimal_string(NODE_HEIGHT as u64).as_str());
    r.append(CANVAS_AFTER_HEIGHT);
    let data = draw_tree(root_node, 0);
    r.append(data.as_str());
    r.append(CANVAS_CLOSE);
    r
}

/// The statistics page for the tree at `root_node`, whose JSON text is
/// `tree_json`.
pub fn page_content(root_node: &LinkTreeNode, tree_json: &str) -> (r: String)
    ensures
        r@ == page_text(tree_json@),
{
    let mut content = String::from_str(PAGE_HEAD);
    content.append(tree_json);
    content.append(PRE_CLOSE);
    let canvas = get_canvas(root_node);
    content.append(canvas.as_str());
    content.append(LINE_END);
    content.append(PAGE_SCRIPT);
    content
}

/// The HTTP response that serves `content`.
pub fn build_response(content: &str) -> (r: String)
    requires
        vstd::utf8::encode_utf8(content@).len() <= usize::MAX,
    ensures
        r@ == response_text(content@),
{
    let mut r = String::from_str(RESPONSE_HEAD);
    let length: usize = content.len();
    r.append(decimal_string(length as u64).as_str());
    r.append(RESPONSE_AFTER_LENGTH);
    r.append(content);
    r
}

} // verus!
