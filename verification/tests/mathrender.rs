use std::hash::{Hash, Hasher};

use ankimarkable::mathrender::{
    alias_macros, answers, answers_from, embed_svg, img_tag, render, requests, resource_dir, tex_key,
    Answer, Found, MathCache, MathRenderer, Rendered, Spans, SvgCache,
};

fn found(whole: &str, first: Option<&str>, second: Option<&str>) -> Found {
    Found {
        whole: whole.to_string(),
        first: first.map(str::to_string),
        second: second.map(str::to_string),
    }
}

fn dot_png() -> Vec<u8> {
    let mut data = vec![0u8; 40 * 30 * 4];
    data[(10 * 40 + 20) * 4 + 3] = 255;
    let size = tiny_skia::IntSize::from_wh(40, 30).unwrap();
    tiny_skia::Pixmap::from_vec(data, size).unwrap().encode_png().unwrap()
}

fn keep(c: &mut MathCache, tex: &str, inline: bool, png: Vec<u8>) {
    let list = vec![(tex.to_string(), inline)];
    let answers = answers_from(&format!("{:x}\t25\n", tex_key(tex, inline)));
    c.render_batch(&list, &answers, &vec![Some((png, 25))]);
}

fn give_up(c: &mut MathCache, tex: &str, inline: bool) {
    c.mark_failed(&vec![(tex.to_string(), inline)]);
}

#[test]
fn only_whole_commands_are_replaced() {
    assert_eq!(alias_macros(r"a \gt b \lt c"), "a > b < c");
    assert_eq!(alias_macros(r"\gtrsim \lte \GT"), r"\gtrsim \lte \GT");
    assert_eq!(alias_macros(r"\gt1\\gt \\ \"), r">1\> \\ \");
    assert_eq!(alias_macros(r"\gté"), ">é");
    assert_eq!(alias_macros(""), "");
}

#[test]
fn keys_tell_formulas_apart() {
    assert_eq!(tex_key("x", true), tex_key("x", true));
    assert_ne!(tex_key("x", true), tex_key("x", false));
    assert_ne!(tex_key("x", true), tex_key("y", true));
}

#[test]
fn keys_are_those_of_the_default_hasher() {
    let mut h = std::collections::hash_map::DefaultHasher::new();
    "x^2".hash(&mut h);
    true.hash(&mut h);
    80u32.hash(&mut h);
    assert_eq!(tex_key("x^2", true), h.finish());
}

#[test]
fn formulas_are_wanted_once() {
    let mut m = MathRenderer::new(true);
    let html = r"<p>\(a\) and \[b\] and \(a\), \[a\] \(c\)</p>";
    let list = m.todo(html);
    let want = vec![
        ("a".to_string(), true),
        ("b".to_string(), false),
        ("a".to_string(), false),
        ("c".to_string(), true),
    ];
    assert_eq!(list, want);
    give_up(&mut m.cache, "b", false);
    assert_eq!(m.todo(html).len(), 3);
    m.cache.mark_failed(&list);
    assert!(m.todo(html).is_empty());
    assert!(MathRenderer::new(false).todo(html).is_empty());
}

#[test]
fn formulas_may_span_lines_and_end_early() {
    let m = MathRenderer::new(true);
    assert_eq!(m.todo("\\(a\nb\\) c\\)"), vec![("a\nb".to_string(), true)]);
    assert_eq!(m.todo(r"\(\)x\)"), vec![(r"\)x".to_string(), true)]);
    assert!(m.todo(r"\(open only").is_empty());
    assert!(m.todo(r"\(").is_empty());
    assert_eq!(m.todo(r"\(a \[b\]"), vec![("b".to_string(), false)]);
    assert_eq!(m.todo(r"\[a\) b\] \)"), vec![(r"a\) b".to_string(), false)]);
    assert_eq!(m.todo(r"\\(x\)\(y\)"), vec![("x".to_string(), true), ("y".to_string(), true)]);
    assert_eq!(m.todo(r"\(x \gt y\)"), vec![("x > y".to_string(), true)]);
}

#[test]
fn formulas_are_replaced() {
    let mut m = MathRenderer::new(true);
    keep(&mut m.cache, "a", true, dot_png());
    keep(&mut m.cache, "b", false, dot_png());
    give_up(&mut m.cache, "c<d", true);
    let html = r"x \(a\) y \[b\] z \(c<d\) \(new\) end";
    let inline = render(&dot_png(), true, 25).unwrap().uri;
    let block = render(&dot_png(), false, 25).unwrap().uri;
    assert!(inline.starts_with("data:image/png;base64,iVBOR"));
    assert_eq!(
        m.preprocess(html),
        concat_all(&[
            "x <img class=\"am-math\" style=\"width:12.5px;height:14.0px;margin:0 0.12em;\" src=\"",
            &inline,
            "\"> y <img class=\"am-math\" style=\"display:block;margin:26px auto;width:12.5px;",
            "max-width:100%;height:auto;\" src=\"",
            &block,
            r#""> z \(c&lt;d\) \(new\) end"#,
        ])
    );
    assert_eq!(m.preprocess(html), m.preprocess(html));
    assert_eq!(m.todo(html), vec![("new".to_string(), true)]);
    m.enabled = false;
    assert_eq!(m.preprocess(html), html);
}

fn concat_all(parts: &[&str]) -> String {
    parts.concat()
}

#[test]
fn html_without_formulas_stays() {
    let m = MathRenderer::new(true);
    let html = "<b>f(x) [1] \\) é & <</b>";
    assert_eq!(m.preprocess(html), html);
    assert_eq!(m.preprocess(""), "");
}

#[test]
fn given_matches_are_replaced() {
    let mut c = MathCache::new();
    keep(&mut c, "t", true, dot_png());
    assert!(c.knows(tex_key("t", true)));
    assert!(!c.knows(tex_key("t", false)));
    let spans = Spans {
        found: vec![found(r"\(t\)", Some("t"), None), found("&", None, None)],
        between: vec!["a".to_string(), "".to_string(), "b".to_string()],
    };
    let img = img_tag(&render(&dot_png(), true, 25).unwrap(), true);
    assert_eq!(c.substitute(&spans), format!("a{img}&amp;b"));
    assert_eq!(c.todo(&spans.found), vec![("".to_string(), false)]);
}

#[test]
fn images_are_shown_at_half_their_size() {
    let img = img_tag(&Rendered { uri: "U".to_string(), w: 7, h: 10 }, true);
    assert_eq!(
        img,
        "<img class=\"am-math\" style=\"width:3.5px;height:5.0px;margin:0 0.12em;\" src=\"U\">"
    );
}

#[test]
fn requests_are_lines() {
    let list = vec![("a\tb\nc\r".to_string(), true), ("x".to_string(), false)];
    let want = format!(
        "{:016x}\t80\t\\textstyle a b c \n{:016x}\t80\t\\displaystyle x\n",
        tex_key("a\tb\nc\r", true),
        tex_key("x", false)
    );
    assert_eq!(requests(&list), want);
    assert_eq!(requests(&vec![]), "");
}

fn told(a: &Answer) -> (u64, &str, Option<&str>) {
    (a.key, a.file.as_str(), a.baseline.as_deref())
}

#[test]
fn answers_are_read() {
    let out = answers(b"00000000000000ff\t12.5\t30\t40\r\n10\tERR\nbog\t1\n10\n\n+A\t\xff\n");
    let got: Vec<_> = out.iter().map(told).collect();
    assert_eq!(
        got,
        vec![
            (255, "00000000000000ff.png", Some("12.5")),
            (16, "10.png", None),
            (10, "+A.png", Some("\u{fffd}")),
        ]
    );
    assert!(answers_from("10000000000000000\t1").is_empty());
}

#[test]
fn a_run_of_the_helper() {
    let mut c = MathCache::new();
    let list = vec![
        ("a".to_string(), true),
        ("b".to_string(), false),
        ("gone".to_string(), true),
        ("bad".to_string(), true),
    ];
    let text = format!(
        "{:016x}\t25\n{:016x}\t25\n{:016x}\tERR\n",
        tex_key("a", true),
        tex_key("b", false),
        tex_key("bad", true)
    );
    let answers = answers_from(&text);
    let files = vec![Some((dot_png(), 25)), Some((dot_png(), 25)), Some((dot_png(), 25))];
    c.render_batch(&list, &answers, &files);
    for (tex, inline) in &list {
        assert!(c.knows(tex_key(tex, *inline)));
    }
    let spans = Spans {
        found: vec![
            found(r"\(a\)", Some("a"), None),
            found(r"\[b\]", None, Some("b")),
            found(r"\(bad\)", Some("bad"), None),
            found(r"\(gone\)", Some("gone"), None),
        ],
        between: vec![String::new(), String::new(), String::new(), String::new(), String::new()],
    };
    let inline = img_tag(&render(&dot_png(), true, 25).unwrap(), true);
    let block = img_tag(&render(&dot_png(), false, 25).unwrap(), false);
    assert!(inline.contains("width:12.5px;height:14.0px;"));
    assert!(block.contains("width:12.5px;"));
    assert_eq!(c.substitute(&spans), format!("{inline}{block}\\(bad\\)\\(gone\\)"));
    assert!(render(b"nothing", true, 0).is_none());
}

#[test]
fn svg_files() {
    let html = "<img src=\"latex-1.svg\"><img src=\"latex-12.svg\"><i>latex-1.svg</i>";
    assert_eq!(
        embed_svg(html, "latex-1.svg", "data:x"),
        "<img src=\"data:x\"><img src=\"latex-12.svg\"><i>latex-1.svg</i>"
    );
    let mut c = SvgCache::new();
    assert_eq!(c.get("a"), None);
    c.put("a", Some("u".to_string()));
    c.put("b", None);
    assert_eq!(c.get("a"), Some(Some("u".to_string())));
    assert_eq!(c.get("b"), Some(None));
    c.put("a", None);
    assert_eq!(c.get("a"), Some(None));
}

#[test]
fn resources() {
    assert_eq!(resource_dir(Some("/x"), true), "/x");
    assert_eq!(resource_dir(None, true), "/home/root/.ankimarkable/microtex-res");
    assert_eq!(resource_dir(None, false), "/home/root/xovi/exthome/textBoxes/microtex-res");
}
