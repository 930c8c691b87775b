# kamoshi

The verified core of the static site generator behind kamoshi.org.

`src/` holds the decisions the site makes, each with a contract proved by
Verus: the relations of the digital garden (links, backlinks, hierarchy,
co-citations), the page tree, wiki link resolution, ruby marks, inline
directives, emoji shortcodes, heading ids and outlines, the grouping of dated
lists, tag indexes and the tag cloud, microblog entries, slideshow sections,
kanji components and feed addresses. Markdown pages are rendered by the
library too (`md::parse`): comrak parses the text into a list of nodes with
their depths, verified passes rewrite it (ruby marks, pictures, MathML, wiki
links, inline directives, citations, headings) and comrak writes the HTML.
Citations and bibliographies are written with hayagriva from the BibLaTeX
text. Calls into camino, chrono, comrak, emojis, hayagriva, pulldown-latex and
regex-syntax go
through small trusted wrappers whose results are named.

`app/` runs the site with hauchiwa: it loads sources, looks up the pictures of
images among the site's assets, and renders the templates, asking the library
at each step.

`tests/` exercises the library on concrete inputs.
