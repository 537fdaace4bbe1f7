use mdbook::book::{clone_book, Book, BookItem, Chapter};
use mdbook::pipeline::{build, run_preprocessors, Config, PluginError, PreprocessorContext,
    ProbePreprocessor, ProbeRenderer, StampPreprocessor};

fn small_book() -> Book {
    Book::with_chapters(vec![
        BookItem::Chapter(Chapter::new("One", String::from("text"), "one.md", Vec::new())),
        BookItem::Separator,
    ])
}

fn ctx_for(renderer: &str) -> PreprocessorContext {
    PreprocessorContext::new("book".to_string(), Config::default(), renderer.to_string())
}

#[test]
fn mdbook_runs_preprocessors() {
    let mut preps = vec![ProbePreprocessor::new()];
    let mut renderers = vec![ProbeRenderer::new("html".to_string())];
    let book = small_book();

    let outs = build(&book, &mut preps, &mut renderers, "book", &Config::default());

    assert!(outs[0].is_ok());
    assert_eq!(preps[0].run_count, 1);
    assert_eq!(preps[0].rendered_with.len(), 1);
    assert_eq!(
        "html", preps[0].rendered_with[0],
        "We should have been run with the default HTML renderer"
    );
}

#[test]
fn mdbook_runs_renderers() {
    let mut preps: Vec<ProbePreprocessor> = Vec::new();
    let mut renderers = vec![ProbeRenderer::new("html".to_string())];
    let book = small_book();

    let outs = build(&book, &mut preps, &mut renderers, "book", &Config::default());

    assert!(outs[0].is_ok());
    assert_eq!(renderers[0].run_count, 1);
}

#[test]
fn trivial_pipeline_succeeds() {
    let mut preps: Vec<ProbePreprocessor> = Vec::new();
    let mut renderers: Vec<ProbeRenderer> = Vec::new();
    let book = small_book();
    let outs = build(&book, &mut preps, &mut renderers, "book", &Config::default());
    assert_eq!(outs.len(), 0);

    let got = run_preprocessors(&mut preps, &ctx_for("html"), small_book()).unwrap();
    assert_eq!(got, small_book());
}

#[test]
fn compatibility_skip_leaves_tree_unchanged() {
    let mut preps = vec![StampPreprocessor { only: "html".to_string() }];
    let book = small_book();
    let before = clone_book(&book);

    // targeting a renderer the preprocessor rejects: byte-for-byte identical
    let skipped = run_preprocessors(&mut preps, &ctx_for("X"), book).unwrap();
    assert_eq!(skipped, before);

    // targeting the accepted renderer: the preprocessor is invoked
    let stamped = run_preprocessors(&mut preps, &ctx_for("html"), skipped).unwrap();
    assert_eq!(stamped.sections.len(), before.sections.len() + 1);
    assert!(matches!(stamped.sections.last().unwrap(), BookItem::Separator));
}

#[test]
fn fail_fast_skips_later_preprocessors() {
    let mut preps = vec![
        ProbePreprocessor::new(),
        ProbePreprocessor::failing(),
        ProbePreprocessor::new(),
    ];

    let r = run_preprocessors(&mut preps, &ctx_for("html"), small_book());

    assert!(matches!(r, Err(PluginError::Failed { .. })));
    assert_eq!(preps[0].run_count, 1);
    assert_eq!(preps[1].run_count, 1);
    assert_eq!(preps[2].run_count, 0, "the preprocessor after the failure must never run");
}

#[test]
fn failing_pass_never_reaches_the_renderer() {
    let mut preps = vec![ProbePreprocessor::failing()];
    let mut renderers = vec![
        ProbeRenderer::new("html".to_string()),
        ProbeRenderer::new("alternative".to_string()),
    ];
    let book = small_book();

    let outs = build(&book, &mut preps, &mut renderers, "book", &Config::default());

    assert_eq!(outs.len(), 2);
    assert!(outs[0].is_err());
    assert!(outs[1].is_err());
    assert_eq!(renderers[0].run_count, 0);
    assert_eq!(renderers[1].run_count, 0);
    // but both passes were attempted
    assert_eq!(preps[0].run_count, 2);
}

#[test]
fn renderer_failure_does_not_stop_other_renderers() {
    let mut preps: Vec<ProbePreprocessor> = Vec::new();
    let mut renderers = vec![
        ProbeRenderer::failing("bad".to_string()),
        ProbeRenderer::new("html".to_string()),
    ];
    let book = small_book();

    let outs = build(&book, &mut preps, &mut renderers, "book", &Config::default());

    assert!(matches!(&outs[0], Err(PluginError::Failed { .. })));
    assert!(outs[1].is_ok());
    assert_eq!(renderers[1].run_count, 1, "the second renderer's pass must still proceed");
}

#[test]
fn preprocessor_errors_name_the_plugin() {
    let mut preps = vec![ProbePreprocessor::failing()];
    let r = run_preprocessors(&mut preps, &ctx_for("html"), small_book());
    match r {
        Err(PluginError::Failed { plugin, .. }) => assert_eq!(plugin, "probe"),
        other => panic!("expected a plugin failure, got {:?}", other),
    }
}

#[test]
fn context_carries_renderer_and_version() {
    let ctx = ctx_for("epub");
    assert_eq!(ctx.renderer, "epub");
    assert_eq!(ctx.mdbook_version, mdbook::pipeline::MDBOOK_VERSION);
    assert_eq!(ctx.root, "book");
}
