# link_crawler

The verified core of a small site crawler. Starting from one address, the
crawler reads each page, keeps the `href` targets that stay on the site and
were not met before, and grows a tree of links, depth first. A statistics
page serves the tree and a picture of it.

- `src/` is the library, proved with Verus: the link tree (`link_tree`), the
  crawl's decisions (`crawl`, `redirect`), the choice of links (`links`),
  addresses (`address`), the served text (`page`, `stats`), the placement of
  nodes in the picture (`layout`) and string helpers (`text`).
- `app/` is the program around it: arguments, HTTP requests, the TLS
  server, and drawing.
- `tests/` runs the library on concrete values.
