//! The page: each block as HTML, the metadata and the content put into the
//! template, and the renderer that runs MathJax for it.
use vstd::prelude::*;
use std::collections::VecDeque;
use crate::ast::{
    Block, BlockNode, Document, blocks_view, block_fits, blocks_fit, lemma_blocks_fit,
    lemma_blocks_view, lemma_blocks_view_push, opt_str, lattice_fits,
};
use crate::engines::{
    base64, base64_fits, base64_encode, file_extension, path_extension, math_options, render_tex,
    mathjax_reply,
};
use crate::html::{
    Pend, Replies, no_replies, next_math, escape, replace_all, decimal, inlines_html, math_markup,
    list_html, lattice_html, html_escape, html_escape_text, escape_text, replace_all_str, decimal_string, render_inline_list,
    render_list, render_lattice, compile_latex_to_svg,
};
use crate::text::{chars_of, same_chars};

verus! {

/// The page a document is put into when no template is given.
pub const DEFAULT_TEMPLATE: &'static str = r#"<!DOCTYPE html>
<html lang="{{lang}}">
<head>
    <meta charset="UTF-8">
    <meta name="viewport" content="width=device-width, initial-scale=1.0">
    <meta name="author" content="{{author}}">
    <meta name="description" content="{{description}}">
    <meta name="keywords" content="{{keywords}}">
    <meta name="copyright" content="{{copyright}}">
    <title>{{title}}</title>
    <style>
        body {
            font-family: -apple-system, BlinkMacSystemFont, "Segoe UI", Roboto, Helvetica, Arial, sans-serif;
            line-height: 1.6;
            max-width: 750px;
            margin: 3rem auto;
            padding: 0 1.5rem;
            color: #24292e;
            background-color: #fafbfc;
        }
        h1, h2, h3 { color: #111; margin-top: 2rem; }
        pre {
            background: #f6f8fa;
            padding: 1rem;
            border-radius: 6px;
            overflow-x: auto;
            border: 1px solid #e1e4e8;
            font-size: 13px;
            line-height: 1.45;
        }
        code {
            font-family: "SFMono-Regular", Consolas, "Liberation Mono", Menlo, monospace;
            font-size: 85%;
        }
        .quarkup-math-block {
            padding: 1rem 0;
        }
        /* Style for the advanced tables (Lattices) */
        table.quarkup-lattice {
            width: 100%;
            border-collapse: collapse;
            margin: 2rem 0;
            font-size: 14px;
        }
        table.quarkup-lattice th, table.quarkup-lattice td {
            border: 1px solid #e1e4e8;
            padding: 10px 12px;
            text-align: left;
        }
        table.quarkup-lattice thead th {
            background-color: #8fb8cf;
            font-weight: 600;
        }
        table.quarkup-lattice tfoot td {
            background-color: #8fb8cf;
            font-style: italic;
            border-top: 2px double #e1e4e8;
        }
        table.quarkup-lattice tr.section-row td {
            background-color: #ebf8ff;
            font-weight: bold;
            color: #2b6cb0;
            text-align: center;
        }
    </style>
</head>
<body>
{{content}}
</body>
</html>"#;

/// An image file read for embedding: the path as the document names it, and
/// its bytes.
pub struct ImageFile {
    pub path: String,
    pub bytes: Vec<u8>,
}

pub open spec fn images_view(v: Seq<ImageFile>) -> Seq<(Seq<char>, Seq<u8>)> {
    v.map_values(|f: ImageFile| (f.path@, f.bytes@))
}

/// Every image can be base64-encoded.
pub open spec fn images_fit(v: Seq<ImageFile>) -> bool {
    forall|i: int| 0 <= i < v.len() ==> base64_fits(#[trigger] v[i].bytes@.len())
}

/// The bytes of the first image read from `path`, if any.
pub open spec fn find_image(imgs: Seq<(Seq<char>, Seq<u8>)>, path: Seq<char>) -> Option<Seq<u8>>
    decreases imgs.len(),
{
    if imgs.len() == 0 {
        None
    } else if imgs[0].0 == path {
        Some(imgs[0].1)
    } else {
        find_image(imgs.drop_first(), path)
    }
}

/// The media type of an image by its file extension.
pub open spec fn mime_of(ext: Option<Seq<char>>) -> Seq<char> {
    match ext {
        Some(e) => if e == "png"@ {
            "image/png"@
        } else if e == "jpg"@ || e == "jpeg"@ {
            "image/jpeg"@
        } else if e == "gif"@ {
            "image/gif"@
        } else if e == "svg"@ {
            "image/svg+xml"@
        } else if e == "webp"@ {
            "image/webp"@
        } else {
            "application/octet-stream"@
        },
        None => "application/octet-stream"@,
    }
}

/// The image as a data URL.
pub open spec fn data_url(path: Seq<char>, bytes: Seq<u8>) -> Seq<char> {
    "data:"@ + mime_of(file_extension(path)) + ";base64,"@ + base64(bytes)
}

/// Where an image comes from in the page: embedded when the renderer is
/// monolithic and the file was read, else its path.
pub open spec fn image_src(path: Seq<char>, monolithic: bool, imgs: Seq<(Seq<char>, Seq<u8>)>) -> Seq<
    char,
> {
    if monolithic {
        match find_image(imgs, path) {
            Some(b) => data_url(path, b),
            None => path,
        }
    } else {
        path
    }
}

/// A code listing: the code as written, in a `pre` whose class names the
/// language, if one is given. In the code only `&`, `<` and `>` become
/// entities (`escape_text`); quotes stay as written.
pub open spec fn code_html(language: Option<Seq<char>>, code: Seq<char>) -> Seq<char> {
    match language {
        Some(l) => "<pre class=\"language-"@ + escape(l) + "\">"@ + escape_text(code) + "</pre>"@,
        None => "<pre>"@ + escape_text(code) + "</pre>"@,
    }
}

/// The HTML of a block, and the replies left.
pub open spec fn block_html(
    b: Block,
    monolithic: bool,
    imgs: Seq<(Seq<char>, Seq<u8>)>,
    p: Pend,
) -> (Seq<char>, Pend)
    decreases b,
{
    match b {
        Block::Heading(level, content) => {
            let h = inlines_html(content, p);
            ("<h"@ + decimal(level) + ">"@ + h.0 + "</h"@ + decimal(level) + ">"@, h.1)
        },
        Block::Paragraph(content) => {
            let h = inlines_html(content, p);
            ("<p>"@ + h.0 + "</p>"@, h.1)
        },
        Block::Image(path, caption) => {
            let src = escape(image_src(path, monolithic, imgs));
            match caption {
                Some(cap) => (
                    "<figure><img src=\""@ + src + "\" alt=\""@ + escape(cap) + "\"><figcaption>"@
                        + escape(cap) + "</figcaption></figure>"@,
                    p,
                ),
                None => ("<img src=\""@ + src + "\" alt=\"\">"@, p),
            }
        },
        Block::CodeBlock(language, code) => (code_html(language, code), p),
        Block::MathBlock(latex) => {
            let r = next_math(p, latex, true);
            (
                "<div class=\"quarkup-math-block\" style=\"text-align: center; margin: 1.5em 0;\">"@
                    + math_markup(r.0, latex, true) + "</div>"@,
                r.1,
            )
        },
        Block::List(ordered, items) => list_html(ordered, items, 0, p),
        Block::Lattice(rows) => lattice_html(rows, p),
        Block::Metadata(_, _) => (seq![], p),
        Block::Conditional(bs) => joined_html(bs, monolithic, imgs, p),
    }
}

/// The HTML of blocks, one per line.
pub open spec fn joined_html(
    bs: Seq<Block>,
    monolithic: bool,
    imgs: Seq<(Seq<char>, Seq<u8>)>,
    p: Pend,
) -> (Seq<char>, Pend)
    decreases bs,
{
    if bs.len() == 0 {
        (seq![], p)
    } else {
        let a = joined_html(bs.drop_last(), monolithic, imgs, p);
        let b = block_html(bs.last(), monolithic, imgs, a.1);
        (
            if bs.len() == 1 {
                b.0
            } else {
                a.0 + "\n"@ + b.0
            },
            b.1,
        )
    }
}

/// The content of the page: every block but the metadata, each followed by
/// a line break.
pub open spec fn content_html(
    bs: Seq<Block>,
    monolithic: bool,
    imgs: Seq<(Seq<char>, Seq<u8>)>,
    p: Pend,
) -> (Seq<char>, Pend)
    decreases bs.len(),
{
    if bs.len() == 0 {
        (seq![], p)
    } else {
        let a = content_html(bs.drop_last(), monolithic, imgs, p);
        match bs.last() {
            Block::Metadata(_, _) => a,
            b => {
                let r = block_html(b, monolithic, imgs, a.1);
                (a.0 + r.0 + "\n"@, r.1)
            },
        }
    }
}

/// The metadata of a page.
pub struct Meta {
    pub title: Seq<char>,
    pub author: Seq<char>,
    pub lang: Seq<char>,
    pub description: Seq<char>,
    pub keywords: Seq<char>,
    pub copyright: Seq<char>,
}

pub open spec fn default_meta() -> Meta {
    Meta {
        title: "Untitled Quarkup Document"@,
        author: "Anonymous"@,
        lang: "en"@,
        description: seq![],
        keywords: seq![],
        copyright: seq![],
    }
}

/// The metadata that the top-level metadata blocks set, the last one of a
/// key winning; other keys are ignored.
pub open spec fn meta_of(bs: Seq<Block>) -> Meta
    decreases bs.len(),
{
    if bs.len() == 0 {
        default_meta()
    } else {
        let m = meta_of(bs.drop_last());
        match bs.last() {
            Block::Metadata(k, v) => if k == "title"@ {
                Meta { title: v, ..m }
            } else if k == "author"@ {
                Meta { author: v, ..m }
            } else if k == "lang"@ {
                Meta { lang: v, ..m }
            } else if k == "description"@ {
                Meta { description: v, ..m }
            } else if k == "keywords"@ {
                Meta { keywords: v, ..m }
            } else if k == "copyright"@ {
                Meta { copyright: v, ..m }
            } else {
                m
            },
            _ => m,
        }
    }
}

/// A top-level metadata block sets exactly the field of the page metadata
/// that its key names to its value, and leaves every other field as it was;
/// a key that names no field changes nothing.
pub proof fn law_metadata_sets_its_field(bs: Seq<Block>, k: Seq<char>, v: Seq<char>)
    ensures
        meta_of(bs.push(Block::Metadata(k, v))).title == (if k == "title"@ {
            v
        } else {
            meta_of(bs).title
        }),
        meta_of(bs.push(Block::Metadata(k, v))).author == (if k == "author"@ {
            v
        } else {
            meta_of(bs).author
        }),
        meta_of(bs.push(Block::Metadata(k, v))).lang == (if k == "lang"@ {
            v
        } else {
            meta_of(bs).lang
        }),
        meta_of(bs.push(Block::Metadata(k, v))).description == (if k == "description"@ {
            v
        } else {
            meta_of(bs).description
        }),
        meta_of(bs.push(Block::Metadata(k, v))).keywords == (if k == "keywords"@ {
            v
        } else {
            meta_of(bs).keywords
        }),
        meta_of(bs.push(Block::Metadata(k, v))).copyright == (if k == "copyright"@ {
            v
        } else {
            meta_of(bs).copyright
        }),
{
    reveal_strlit("title");
    reveal_strlit("author");
    reveal_strlit("lang");
    reveal_strlit("description");
    reveal_strlit("keywords");
    reveal_strlit("copyright");
    assert("title"@.len() == 5 && "author"@.len() == 6 && "lang"@.len() == 4);
    assert("description"@.len() == 11 && "keywords"@.len() == 8 && "copyright"@.len() == 9);
    let b2 = bs.push(Block::Metadata(k, v));
    assert(b2.drop_last() =~= bs);
    assert(b2.last() == Block::Metadata(k, v));
}

/// Blocks other than metadata leave the page metadata as it was.
pub proof fn law_other_blocks_keep_metadata(bs: Seq<Block>, b: Block)
    requires
        !(b is Metadata),
    ensures
        meta_of(bs.push(b)) == meta_of(bs),
{
    let b2 = bs.push(b);
    assert(b2.drop_last() =~= bs);
    assert(b2.last() == b);
}

/// The template with its placeholders filled in, one after the other: the
/// metadata escaped, the content as it is.
pub open spec fn fill_template(t: Seq<char>, m: Meta, content: Seq<char>) -> Seq<char> {
    let t1 = replace_all(t, "{{title}}"@, escape(m.title));
    let t2 = replace_all(t1, "{{author}}"@, escape(m.author));
    let t3 = replace_all(t2, "{{lang}}"@, escape(m.lang));
    let t4 = replace_all(t3, "{{description}}"@, escape(m.description));
    let t5 = replace_all(t4, "{{keywords}}"@, escape(m.keywords));
    let t6 = replace_all(t5, "{{copyright}}"@, escape(m.copyright));
    replace_all(t6, "{{content}}"@, content)
}

/// Text with no `{`, so with no placeholder in it.
pub open spec fn no_brace(s: Seq<char>) -> bool {
    forall|i: int| 0 <= i < s.len() ==> #[trigger] s[i] != '{'
}

/// A placeholder: `{{`, a name without braces, `}}`.
pub open spec fn is_placeholder(p: Seq<char>) -> bool {
    &&& p.len() >= 5
    &&& p[0] == '{' && p[1] == '{' && p[p.len() - 2] == '}' && p[p.len() - 1] == '}'
    &&& forall|k: int| 2 <= k < p.len() - 2 ==> #[trigger] p[k] != '{' && p[k] != '}'
}

proof fn lemma_escape_no_brace(s: Seq<char>)
    requires
        no_brace(s),
    ensures
        no_brace(escape(s)),
    decreases s.len(),
{
    if s.len() > 0 {
        assert forall|i: int| 0 <= i < s.drop_last().len() implies #[trigger] s.drop_last()[i]
            != '{' by {
            assert(s.drop_last()[i] == s[i]);
        }
        lemma_escape_no_brace(s.drop_last());
        reveal_strlit("&amp;");
        reveal_strlit("&lt;");
        reveal_strlit("&gt;");
        reveal_strlit("&quot;");
        reveal_strlit("&#x27;");
        let a = escape(s.drop_last());
        let b = crate::html::esc_char(s.last());
        assert(s.last() == s[s.len() - 1]);
        assert forall|i: int| 0 <= i < escape(s).len() implies #[trigger] escape(s)[i] != '{' by {
            if i < a.len() {
                assert(escape(s)[i] == a[i]);
            } else {
                assert(escape(s)[i] == b[i - a.len()]);
            }
        }
    }
}

proof fn lemma_find_seq_none(s: Seq<char>, p: Seq<char>, j: int)
    requires
        0 <= j,
        forall|i: int| j <= i && i + p.len() <= s.len() ==> #[trigger] s.subrange(i, i + p.len()) != p,
    ensures
        crate::text::find_seq_from(s, p, j) is None,
    decreases s.len() - j,
{
    if j + p.len() <= s.len() && j < s.len() {
        lemma_find_seq_none(s, p, j + 1);
    }
}

/// Filling a placeholder into text without braces changes nothing.
proof fn lemma_replace_absent(s: Seq<char>, q: Seq<char>, r: Seq<char>)
    requires
        no_brace(s),
        is_placeholder(q),
    ensures
        replace_all(s, q, r) == s,
{
    assert forall|i: int| 0 <= i && i + q.len() <= s.len() implies #[trigger] s.subrange(
        i,
        i + q.len(),
    ) != q by {
        assert(s.subrange(i, i + q.len())[0] == s[i]);
    }
    lemma_find_seq_none(s, q, 0);
}

/// Filling placeholder `q` into text that holds one placeholder `p`, and no
/// other brace, puts `r` in its place where `q` is `p` and changes nothing
/// otherwise.
proof fn lemma_fill_one(a: Seq<char>, p: Seq<char>, b: Seq<char>, q: Seq<char>, r: Seq<char>)
    requires
        no_brace(a),
        no_brace(b),
        is_placeholder(p),
        is_placeholder(q),
    ensures
        replace_all(a + p + b, q, r) == if q == p {
            a + r + b
        } else {
            a + p + b
        },
{
    let s = a + p + b;
    let n = a.len() as int;
    assert forall|i: int| 0 <= i < s.len() && i != n && i != n + 1 implies #[trigger] s[i] != '{' by {
        if i < n {
            assert(s[i] == a[i]);
        } else if i < n + p.len() {
            assert(s[i] == p[i - n]);
        } else {
            assert(s[i] == b[i - n - p.len()]);
        }
    }
    assert forall|i: int| 0 <= i < n && i + q.len() <= s.len() implies #[trigger] s.subrange(
        i,
        i + q.len(),
    ) != q by {
        assert(s.subrange(i, i + q.len())[0] == s[i]);
    }
    assert forall|i: int| n < i && i + q.len() <= s.len() implies #[trigger] s.subrange(
        i,
        i + q.len(),
    ) != q by {
        let w = s.subrange(i, i + q.len());
        if i == n + 1 {
            assert(w[1] == s[n + 2]);
            assert(s[n + 2] == p[2]);
        } else {
            assert(w[0] == s[i]);
        }
    }
    if q == p {
        assert(s.subrange(n, n + p.len()) =~= p);
        crate::grammar::lemma_find_seq_at(s, p, 0, n);
        assert(s.take(n) =~= a);
        assert(s.skip(n + p.len()) =~= b);
        lemma_replace_absent(b, p, r);
    } else {
        if n + q.len() <= s.len() {
            let w = s.subrange(n, n + q.len());
            assert(w != q) by {
                if w == q {
                    let lq = q.len() as int;
                    let lp = p.len() as int;
                    if lq <= lp {
                        assert(w[lq - 1] == p[lq - 1]);
                        assert(w[lq - 2] == p[lq - 2]);
                        if lq < lp {
                            assert(p[lq - 2] != '}' || p[lq - 1] != '}');
                        } else {
                            assert forall|k: int| 0 <= k < lq implies q[k] == p[k] by {
                                assert(w[k] == p[k]);
                            }
                            assert(q =~= p);
                        }
                    } else {
                        assert(w[lp - 1] == p[lp - 1]);
                        assert(w[lp - 2] == p[lp - 2]);
                        assert(q[lp - 1] == '}' && q[lp - 2] == '}');
                    }
                }
            }
        }
        lemma_find_seq_none(s, q, 0);
    }
}

/// One filling step, on the template before its placeholder is filled or on
/// text with no brace left.
proof fn lemma_fill_step(a: Seq<char>, p: Seq<char>, b: Seq<char>, q: Seq<char>, r: Seq<char>, cur: Seq<char>)
    requires
        no_brace(a),
        no_brace(b),
        is_placeholder(q),
    ensures
        is_placeholder(p) && cur == a + p + b ==> replace_all(cur, q, r) == if q == p {
            a + r + b
        } else {
            cur
        },
        no_brace(cur) ==> replace_all(cur, q, r) == cur,
        no_brace(r) ==> no_brace(a + r + b),
{
    if is_placeholder(p) && cur == a + p + b {
        lemma_fill_one(a, p, b, q, r);
    }
    if no_brace(cur) {
        lemma_replace_absent(cur, q, r);
    }
    if no_brace(r) {
        let x = a + r + b;
        assert forall|i: int| 0 <= i < x.len() implies #[trigger] x[i] != '{' by {
            if i < a.len() {
                assert(x[i] == a[i]);
            } else if i < a.len() + r.len() {
                assert(x[i] == r[i - a.len()]);
            } else {
                assert(x[i] == b[i - a.len() - r.len()]);
            }
        }
    }
}

/// A template that holds one placeholder and no other brace is filled with
/// that placeholder's own value: the escaped metadata field it names, or the
/// content; the rest of the template is kept as it is.
pub proof fn law_placeholder_gets_its_value(
    a: Seq<char>,
    p: Seq<char>,
    b: Seq<char>,
    m: Meta,
    content: Seq<char>,
)
    requires
        no_brace(a),
        no_brace(b),
        no_brace(m.title),
        no_brace(m.author),
        no_brace(m.lang),
        no_brace(m.description),
        no_brace(m.keywords),
        no_brace(m.copyright),
    ensures
        p == "{{title}}"@ ==> fill_template(a + p + b, m, content) == a + escape(m.title) + b,
        p == "{{author}}"@ ==> fill_template(a + p + b, m, content) == a + escape(m.author) + b,
        p == "{{lang}}"@ ==> fill_template(a + p + b, m, content) == a + escape(m.lang) + b,
        p == "{{description}}"@ ==> fill_template(a + p + b, m, content) == a + escape(
            m.description,
        ) + b,
        p == "{{keywords}}"@ ==> fill_template(a + p + b, m, content) == a + escape(m.keywords)
            + b,
        p == "{{copyright}}"@ ==> fill_template(a + p + b, m, content) == a + escape(
            m.copyright,
        ) + b,
        p == "{{content}}"@ ==> fill_template(a + p + b, m, content) == a + content + b,
{
    reveal_strlit("{{title}}");
    reveal_strlit("{{author}}");
    reveal_strlit("{{lang}}");
    reveal_strlit("{{description}}");
    reveal_strlit("{{keywords}}");
    reveal_strlit("{{copyright}}");
    reveal_strlit("{{content}}");
    assert(is_placeholder("{{title}}"@));
    assert(is_placeholder("{{author}}"@));
    assert(is_placeholder("{{lang}}"@));
    assert(is_placeholder("{{description}}"@));
    assert(is_placeholder("{{keywords}}"@));
    assert(is_placeholder("{{copyright}}"@));
    assert(is_placeholder("{{content}}"@));
    lemma_escape_no_brace(m.title);
    lemma_escape_no_brace(m.author);
    lemma_escape_no_brace(m.lang);
    lemma_escape_no_brace(m.description);
    lemma_escape_no_brace(m.keywords);
    lemma_escape_no_brace(m.copyright);
    let t0 = a + p + b;
    let t1 = replace_all(t0, "{{title}}"@, escape(m.title));
    lemma_fill_step(a, p, b, "{{title}}"@, escape(m.title), t0);
    let t2 = replace_all(t1, "{{author}}"@, escape(m.author));
    lemma_fill_step(a, p, b, "{{author}}"@, escape(m.author), t1);
    let t3 = replace_all(t2, "{{lang}}"@, escape(m.lang));
    lemma_fill_step(a, p, b, "{{lang}}"@, escape(m.lang), t2);
    let t4 = replace_all(t3, "{{description}}"@, escape(m.description));
    lemma_fill_step(a, p, b, "{{description}}"@, escape(m.description), t3);
    let t5 = replace_all(t4, "{{keywords}}"@, escape(m.keywords));
    lemma_fill_step(a, p, b, "{{keywords}}"@, escape(m.keywords), t4);
    let t6 = replace_all(t5, "{{copyright}}"@, escape(m.copyright));
    lemma_fill_step(a, p, b, "{{copyright}}"@, escape(m.copyright), t5);
    lemma_fill_step(a, p, b, "{{content}}"@, content, t6);
}

/// The page of a document, and the replies left.
pub open spec fn page_html(
    template: Seq<char>,
    monolithic: bool,
    imgs: Seq<(Seq<char>, Seq<u8>)>,
    bs: Seq<Block>,
    p: Pend,
) -> (Seq<char>, Pend) {
    let c = content_html(bs, monolithic, imgs, p);
    (fill_template(template, meta_of(bs), c.0), c.1)
}

/// What a rendered page is, whatever MathJax replied: the page built from
/// one reply for each formula that the page asks for, in the order it asks,
/// each a reply MathJax gave for that formula.
pub open spec fn rendered(
    r: Seq<char>,
    template: Seq<char>,
    monolithic: bool,
    imgs: Seq<(Seq<char>, Seq<u8>)>,
    bs: Seq<Block>,
) -> bool {
    let asked = page_html(template, monolithic, imgs, bs, no_replies()).1;
    exists|p: Pend|
        #![trigger page_html(template, monolithic, imgs, bs, p)]
        page_html(template, monolithic, imgs, bs, p).0 == r && p.asked_math.len() == 0
            && p.math.len() == asked.asked_math.len() && forall|i: int|
            0 <= i < p.math.len() ==> mathjax_reply(
                asked.asked_math[i].0,
                #[trigger] opt_str(p.math[i]),
            )
}

/// Whether two texts are the same.
fn same_text(a: &str, b: &str) -> (r: bool)
    ensures
        r == (a@ == b@),
{
    let v = chars_of(a);
    same_chars(&v, b)
}

/// The first image read from `path`, by its index.
fn find_image_file(images: &Vec<ImageFile>, path: &str) -> (r: Option<usize>)
    ensures
        match r {
            Some(i) => i < images@.len() && find_image(images_view(images@), path@) == Some(
                images@[i as int].bytes@,
            ),
            None => find_image(images_view(images@), path@) is None,
        },
{
    let ghost iv = images_view(images@);
    let mut i: usize = 0;
    proof {
        assert(iv.skip(0) =~= iv);
    }
    while i < images.len()
        invariant
            i <= images.len(),
            iv == images_view(images@),
            find_image(iv, path@) == find_image(iv.skip(i as int), path@),
        decreases images.len() - i,
    {
        proof {
            assert(iv.skip(i as int)[0] == iv[i as int]);
            assert(iv.skip(i as int).drop_first() =~= iv.skip(i + 1));
        }
        if same_text(images[i].path.as_str(), path) {
            return Some(i);
        }
        i = i + 1;
    }
    proof {
        assert(iv.skip(images@.len() as int) =~= Seq::<(Seq<char>, Seq<u8>)>::empty());
    }
    None
}

/// The media type of an image by its file extension.
pub fn mime_type(ext: &Option<String>) -> (r: String)
    ensures
        r@ == mime_of(opt_str(*ext)),
{
    match ext {
        Some(e) => {
            let e = e.as_str();
            if same_text(e, "png") {
                "image/png".to_owned()
            } else if same_text(e, "jpg") || same_text(e, "jpeg") {
                "image/jpeg".to_owned()
            } else if same_text(e, "gif") {
                "image/gif".to_owned()
            } else if same_text(e, "svg") {
                "image/svg+xml".to_owned()
            } else if same_text(e, "webp") {
                "image/webp".to_owned()
            } else {
                "application/octet-stream".to_owned()
            }
        },
        None => "application/octet-stream".to_owned(),
    }
}

/// An image as a data URL: its media type by the path's extension, its
/// bytes in base64.
pub fn get_image_data_url(image_path: &str, bytes: &Vec<u8>) -> (r: String)
    requires
        base64_fits(bytes@.len()),
    ensures
        r@ == data_url(image_path@, bytes@),
{
    let encoded = base64_encode(bytes);
    let ext = path_extension(image_path);
    let mime = mime_type(&ext);
    let mut r = String::new();
    r.append("data:");
    r.append(mime.as_str());
    r.append(";base64,");
    r.append(encoded.as_str());
    r
}

/// The paths of the images of a block, nested ones included, in order.
pub open spec fn block_images(b: Block) -> Seq<Seq<char>>
    decreases b,
{
    match b {
        Block::Image(path, _) => seq![path],
        Block::Conditional(bs) => blocks_images(bs),
        _ => seq![],
    }
}

pub open spec fn blocks_images(bs: Seq<Block>) -> Seq<Seq<char>>
    decreases bs,
{
    if bs.len() == 0 {
        seq![]
    } else {
        blocks_images(bs.drop_last()) + block_images(bs.last())
    }
}

fn push_images(blocks: &Vec<BlockNode>, out: &mut Vec<String>)
    ensures
        final(out)@.map_values(|s: String| s@) == old(out)@.map_values(|s: String| s@)
            + blocks_images(blocks_view(blocks@)),
    decreases blocks,
{
    let mut i: usize = 0;
    let ghost o0 = out@.map_values(|s: String| s@);
    proof {
        assert(blocks@.take(0) =~= Seq::<BlockNode>::empty());
        assert(o0 + blocks_images(blocks_view(blocks@.take(0))) =~= o0);
    }
    while i < blocks.len()
        invariant
            i <= blocks.len(),
            out@.map_values(|s: String| s@) == o0 + blocks_images(blocks_view(blocks@.take(i as int))),
        decreases blocks.len() - i,
    {
        let ghost before = out@.map_values(|s: String| s@);
        match &blocks[i] {
            BlockNode::Image { path, .. } => {
                out.push(path.clone());
                proof {
                    assert(out@.map_values(|s: String| s@) =~= before + seq![path@]);
                }
            },
            BlockNode::Conditional(inner) => {
                push_images(inner, out);
            },
            _ => {
                proof {
                    assert(before + Seq::<Seq<char>>::empty() =~= before);
                }
            },
        }
        proof {
            let a = blocks@.take(i as int);
            let b = blocks@.take(i + 1);
            assert(b =~= a.push(blocks@[i as int]));
            lemma_blocks_view_push(a, blocks@[i as int]);
            let vb = blocks_view(b);
            assert(vb.drop_last() =~= blocks_view(a));
            assert(vb.last() == crate::ast::block_view(blocks@[i as int]));
            assert(out@.map_values(|s: String| s@) =~= o0 + blocks_images(blocks_view(a)) + block_images(
                crate::ast::block_view(blocks@[i as int]),
            ));
        }
        i = i + 1;
    }
    proof {
        assert(blocks@.take(blocks@.len() as int) =~= blocks@);
    }
}

/// The paths of all images of a document, in order: the files a monolithic
/// rendering embeds.
pub fn image_paths(doc: &Document) -> (r: Vec<String>)
    ensures
        r@.map_values(|s: String| s@) == blocks_images(doc@),
{
    let mut out: Vec<String> = Vec::new();
    proof {
        assert(out@.map_values(|s: String| s@) =~= Seq::<Seq<char>>::empty());
    }
    push_images(&doc.blocks, &mut out);
    proof {
        assert(Seq::<Seq<char>>::empty() + blocks_images(doc@) =~= blocks_images(doc@));
    }
    out
}

/// Whether `n` bytes can be embedded: their base64 text fits in `usize`.
pub fn base64_len_fits(n: usize) -> (r: bool)
    ensures
        r == base64_fits(n as nat),
{
    let chunks = n / 3;
    let tail: usize = if n % 3 == 0 {
        0
    } else {
        4
    };
    chunks <= (usize::MAX - tail) / 4
}

/// Renders documents into HTML pages.
pub struct HtmlRenderer {
    template: String,
    monolithic: bool,
}

impl HtmlRenderer {
    /// The template the renderer fills in.
    pub closed spec fn template_text(&self) -> Seq<char> {
        self.template@
    }

    /// Whether images are embedded as data URLs.
    pub closed spec fn is_monolithic(&self) -> bool {
        self.monolithic
    }

    /// A renderer with the given template (the built-in one if none), which
    /// embeds images when `monolithic`.
    pub fn new(custom_template: Option<String>, monolithic: bool) -> (r: Self)
        ensures
            r.template_text() == (match custom_template {
                Some(t) => t@,
                None => DEFAULT_TEMPLATE@,
            }),
            r.is_monolithic() == monolithic,
    {
        let template = match custom_template {
            Some(t) => t,
            None => DEFAULT_TEMPLATE.to_owned(),
        };
        HtmlRenderer { template, monolithic }
    }

    /// Where an image comes from in the page.
    fn resolve_image(&self, path: &String, images: &Vec<ImageFile>) -> (r: String)
        requires
            images_fit(images@),
        ensures
            r@ == image_src(path@, self.monolithic, images_view(images@)),
    {
        if self.monolithic {
            match find_image_file(images, path.as_str()) {
                Some(i) => {
                    assert(base64_fits(images@[i as int].bytes@.len()));
                    get_image_data_url(path.as_str(), &images[i].bytes)
                },
                None => path.clone(),
            }
        } else {
            path.clone()
        }
    }

    /// The HTML of a block.
    fn render_block(&self, block: &BlockNode, images: &Vec<ImageFile>, replies: &mut Replies) -> (r:
        String)
        requires
            block_fits(*block),
            images_fit(images@),
        ensures
            r@ == block_html(block@, self.monolithic, images_view(images@), old(replies)@).0,
            final(replies)@ == block_html(block@, self.monolithic, images_view(images@), old(replies)@).1,
        decreases block,
    {
        match block {
            BlockNode::Heading { level, content } => {
                let inner = render_inline_list(content, replies);
                let d = decimal_string(*level);
                let mut r = String::new();
                r.append("<h");
                r.append(d.as_str());
                r.append(">");
                r.append(inner.as_str());
                r.append("</h");
                r.append(d.as_str());
                r.append(">");
                r
            },
            BlockNode::Paragraph(content) => {
                let inner = render_inline_list(content, replies);
                let mut r = String::new();
                r.append("<p>");
                r.append(inner.as_str());
                r.append("</p>");
                r
            },
            BlockNode::Image { path, caption } => {
                let src = self.resolve_image(path, images);
                let src = html_escape(src.as_str());
                let mut r = String::new();
                match caption {
                    Some(cap) => {
                        let cap = html_escape(cap.as_str());
                        r.append("<figure><img src=\"");
                        r.append(src.as_str());
                        r.append("\" alt=\"");
                        r.append(cap.as_str());
                        r.append("\"><figcaption>");
                        r.append(cap.as_str());
                        r.append("</figcaption></figure>");
                    },
                    None => {
                        r.append("<img src=\"");
                        r.append(src.as_str());
                        r.append("\" alt=\"\">");
                    },
                }
                r
            },
            BlockNode::CodeBlock { language, code } => {
                let body = html_escape_text(code.as_str());
                let mut r = String::new();
                match language {
                    Some(l) => {
                        let l = html_escape(l.as_str());
                        r.append("<pre class=\"language-");
                        r.append(l.as_str());
                        r.append("\">");
                    },
                    None => {
                        r.append("<pre>");
                    },
                }
                r.append(body.as_str());
                r.append("</pre>");
                r
            },
            BlockNode::MathBlock(latex) => {
                let reply = replies.next_math(latex.as_str(), true);
                let svg = compile_latex_to_svg(reply, latex.as_str(), true);
                let mut r = String::new();
                r.append(
                    "<div class=\"quarkup-math-block\" style=\"text-align: center; margin: 1.5em 0;\">",
                );
                r.append(svg.as_str());
                r.append("</div>");
                r
            },
            BlockNode::List { ordered, items } => render_list(*ordered, items, replies),
            BlockNode::Lattice(rows) => render_lattice(rows, replies),
            BlockNode::Metadata { .. } => String::new(),
            BlockNode::Conditional(blocks) => self.render_joined(blocks, images, replies),
        }
    }

    /// The HTML of blocks, one per line.
    fn render_joined(&self, blocks: &Vec<BlockNode>, images: &Vec<ImageFile>, replies: &mut Replies) -> (r:
        String)
        requires
            blocks_fit(blocks@),
            images_fit(images@),
        ensures
            r@ == joined_html(blocks_view(blocks@), self.monolithic, images_view(images@), old(replies)@).0,
            final(replies)@ == joined_html(
                blocks_view(blocks@),
                self.monolithic,
                images_view(images@),
                old(replies)@,
            ).1,
        decreases blocks,
    {
        let ghost imgs = images_view(images@);
        let ghost p0 = replies@;
        let mut html = String::new();
        let mut i: usize = 0;
        proof {
            lemma_blocks_fit(blocks@);
            assert(blocks@.take(0) =~= Seq::<BlockNode>::empty());
        }
        while i < blocks.len()
            invariant
                i <= blocks.len(),
                blocks_fit(blocks@),
                forall|j: int| 0 <= j < blocks@.len() ==> #[trigger] block_fits(blocks@[j]),
                images_fit(images@),
                imgs == images_view(images@),
                html@ == joined_html(blocks_view(blocks@.take(i as int)), self.monolithic, imgs, p0).0,
                replies@ == joined_html(blocks_view(blocks@.take(i as int)), self.monolithic, imgs, p0).1,
            decreases blocks.len() - i,
        {
            let h = self.render_block(&blocks[i], images, replies);
            if i > 0 {
                html.append("\n");
            }
            html.append(h.as_str());
            proof {
                let a = blocks@.take(i as int);
                let b = blocks@.take(i + 1);
                assert(b =~= a.push(blocks@[i as int]));
                lemma_blocks_view_push(a, blocks@[i as int]);
                let vb = blocks_view(b);
                assert(vb.drop_last() =~= blocks_view(a));
                assert(vb.last() == crate::ast::block_view(blocks@[i as int]));
                crate::ast::lemma_blocks_view(a);
            }
            i = i + 1;
        }
        proof {
            assert(blocks@.take(blocks@.len() as int) =~= blocks@);
        }
        html
    }

    /// The page of a document rendered from the given replies of MathJax,
    /// with the given image files to embed.
    pub fn render_page(&self, doc: &Document, images: &Vec<ImageFile>, replies: &mut Replies) -> (r:
        String)
        requires
            blocks_fit(doc.blocks@),
            images_fit(images@),
        ensures
            r@ == page_html(
                self.template_text(),
                self.is_monolithic(),
                images_view(images@),
                doc@,
                old(replies)@,
            ).0,
            final(replies)@ == page_html(
                self.template_text(),
                self.is_monolithic(),
                images_view(images@),
                doc@,
                old(replies)@,
            ).1,
    {
        let ghost bv = doc@;
        let ghost imgs = images_view(images@);
        let ghost p0 = replies@;
        let mut content = String::new();
        let mut title = "Untitled Quarkup Document".to_owned();
        let mut author = "Anonymous".to_owned();
        let mut lang = "en".to_owned();
        let mut description = String::new();
        let mut keywords = String::new();
        let mut copyright = String::new();
        let mut i: usize = 0;
        proof {
            lemma_blocks_view(doc.blocks@);
            lemma_blocks_fit(doc.blocks@);
            assert(bv.take(0) =~= Seq::<Block>::empty());
        }
        while i < doc.blocks.len()
            invariant
                i <= doc.blocks.len(),
                bv == blocks_view(doc.blocks@),
                bv.len() == doc.blocks@.len(),
                forall|j: int| 0 <= j < bv.len() ==> #[trigger] bv[j] == crate::ast::block_view(doc.blocks@[j]),
                forall|j: int| 0 <= j < doc.blocks@.len() ==> #[trigger] block_fits(doc.blocks@[j]),
                images_fit(images@),
                imgs == images_view(images@),
                content@ == content_html(bv.take(i as int), self.monolithic, imgs, p0).0,
                replies@ == content_html(bv.take(i as int), self.monolithic, imgs, p0).1,
                meta_of(bv.take(i as int)) == (Meta {
                    title: title@,
                    author: author@,
                    lang: lang@,
                    description: description@,
                    keywords: keywords@,
                    copyright: copyright@,
                }),
            decreases doc.blocks.len() - i,
        {
            proof {
                assert(bv.take(i + 1).drop_last() =~= bv.take(i as int));
                assert(bv.take(i + 1).last() == bv[i as int]);
            }
            match &doc.blocks[i] {
                BlockNode::Metadata { key, value } => {
                    let k = key.as_str();
                    if same_text(k, "title") {
                        title = value.clone();
                    } else if same_text(k, "author") {
                        author = value.clone();
                    } else if same_text(k, "lang") {
                        lang = value.clone();
                    } else if same_text(k, "description") {
                        description = value.clone();
                    } else if same_text(k, "keywords") {
                        keywords = value.clone();
                    } else if same_text(k, "copyright") {
                        copyright = value.clone();
                    }
                },
                block => {
                    let h = self.render_block(block, images, replies);
                    content.append(h.as_str());
                    content.append("\n");
                },
            }
            i = i + 1;
        }
        proof {
            assert(bv.take(bv.len() as int) =~= bv);
            reveal_strlit("{{title}}");
            reveal_strlit("{{author}}");
            reveal_strlit("{{lang}}");
            reveal_strlit("{{description}}");
            reveal_strlit("{{keywords}}");
            reveal_strlit("{{copyright}}");
            reveal_strlit("{{content}}");
        }
        let e = html_escape(title.as_str());
        let t = replace_all_str(self.template.as_str(), "{{title}}", e.as_str());
        let e = html_escape(author.as_str());
        let t = replace_all_str(t.as_str(), "{{author}}", e.as_str());
        let e = html_escape(lang.as_str());
        let t = replace_all_str(t.as_str(), "{{lang}}", e.as_str());
        let e = html_escape(description.as_str());
        let t = replace_all_str(t.as_str(), "{{description}}", e.as_str());
        let e = html_escape(keywords.as_str());
        let t = replace_all_str(t.as_str(), "{{keywords}}", e.as_str());
        let e = html_escape(copyright.as_str());
        let t = replace_all_str(t.as_str(), "{{copyright}}", e.as_str());
        replace_all_str(t.as_str(), "{{content}}", content.as_str())
    }

    /// The page of a document, with the given image files to embed: MathJax
    /// typesets each formula that the page holds, in the order the page asks
    /// for them.
    pub fn render_with_images(&self, doc: &Document, images: &Vec<ImageFile>) -> (r: String)
        requires
            blocks_fit(doc.blocks@),
            images_fit(images@),
        ensures
            rendered(r@, self.template_text(), self.is_monolithic(), images_view(images@), doc@),
    {
        let mut probe = Replies::new(VecDeque::new());
        proof {
            assert(probe@ =~= no_replies());
        }
        let _ = self.render_page(doc, images, &mut probe);
        let ghost asked = probe@;
        let options = math_options();
        let mut math: VecDeque<Option<String>> = VecDeque::new();
        let mut i: usize = 0;
        while i < probe.asked_math.len()
            invariant
                i <= probe.asked_math.len(),
                probe@ == asked,
                math@.len() == i,
                forall|k: int|
                    0 <= k < i ==> mathjax_reply(
                        asked.asked_math[k].0,
                        #[trigger] opt_str(math@[k]),
                    ),
            decreases probe.asked_math.len() - i,
        {
            proof {
                assert(asked.asked_math[i as int].0 == probe.asked_math@[i as int].0@);
            }
            let reply = render_tex(probe.asked_math[i].0.as_str(), &options);
            math.push_back(reply);
            i = i + 1;
        }
        let mut replies = Replies::new(math);
        let ghost p = replies@;
        let r = self.render_page(doc, images, &mut replies);
        proof {
            assert(page_html(self.template_text(), self.is_monolithic(), images_view(images@), doc@, p).0
                == r@);
        }
        r
    }

    /// The page of a document; images are left where they are.
    pub fn render(&self, doc: &Document) -> (r: String)
        requires
            blocks_fit(doc.blocks@),
        ensures
            rendered(r@, self.template_text(), self.is_monolithic(), seq![], doc@),
    {
        let images: Vec<ImageFile> = Vec::new();
        proof {
            assert(images_view(images@) =~= seq![]);
        }
        self.render_with_images(doc, &images)
    }
}

} // verus!
