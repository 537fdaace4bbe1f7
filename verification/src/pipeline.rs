//! Orchestration of a build: an ordered list of preprocessors is applied to
//! the loaded book, in declared order, for each configured renderer in turn;
//! a preprocessor that does not support the pass's renderer is skipped with
//! the tree untouched; the first failing preprocessor aborts the pass before
//! anything later runs; and one renderer's failure never keeps another
//! renderer from being attempted.

use vstd::prelude::*;

use crate::book::{Book, BookItem, ItemView, strings_view};

verus! {

/// The version of the host tool, as reported to plugins.
pub const MDBOOK_VERSION: &'static str = "0.3.1";

/// Whether two string slices read the same.
pub fn str_eq(a: &str, b: &str) -> (r: bool)
    ensures
        r == (a@ == b@),
{
    let sa = a.to_owned();
    let sb = b.to_owned();
    sa == sb
}

/// The book configuration carried in the build context, as its raw text.
/// Reading and interpreting a configuration file is the embedding driver's
/// part; the pipeline only carries the text through to plugins.
#[derive(Debug, PartialEq)]
pub struct Config {
    /// The configuration text.
    pub text: String,
}

impl View for Config {
    type V = Seq<char>;

    open spec fn view(&self) -> Seq<char> {
        self.text@
    }
}

impl Config {
    /// Wrap configuration text.
    pub fn new(text: String) -> (c: Config)
        ensures
            c@ == text@,
    {
        Config { text }
    }

    /// A copy that reads the same.
    pub fn duplicate(&self) -> (c: Config)
        ensures
            c@ == self@,
    {
        Config { text: self.text.clone() }
    }
}

impl Default for Config {
    /// An empty configuration.
    fn default() -> (c: Config)
        ensures
            c@ =~= Seq::<char>::empty(),
    {
        Config { text: String::new() }
    }
}

/// Ghost view of a build context.
pub struct ContextView {
    pub root: Seq<char>,
    pub config: Seq<char>,
    pub renderer: Seq<char>,
    pub mdbook_version: Seq<char>,
}

/// Extra information handed to a preprocessor: where the book lives, the
/// effective configuration, which renderer the pass is for, and the host
/// tool version.
#[derive(Debug, PartialEq)]
pub struct PreprocessorContext {
    /// The location of the book directory.
    pub root: String,
    /// The book configuration.
    pub config: Config,
    /// The renderer this preprocessor is being used with.
    pub renderer: String,
    /// The calling host tool version.
    pub mdbook_version: String,
}

impl View for PreprocessorContext {
    type V = ContextView;

    open spec fn view(&self) -> ContextView {
        ContextView {
            root: self.root@,
            config: self.config@,
            renderer: self.renderer@,
            mdbook_version: self.mdbook_version@,
        }
    }
}

impl PreprocessorContext {
    /// Create a new build context for one renderer's pass.
    pub fn new(root: String, config: Config, renderer: String) -> (c: Self)
        ensures
            c@.root == root@,
            c@.config == config@,
            c@.renderer == renderer@,
            c@.mdbook_version == MDBOOK_VERSION@,
    {
        PreprocessorContext { root, config, renderer, mdbook_version: MDBOOK_VERSION.to_owned() }
    }
}

/// Why a plugin invocation failed.
#[derive(Debug, PartialEq)]
pub enum PluginError {
    /// An input or output could not be read or written.
    Io { path: String },
    /// A plugin's output was not a well-formed tree document.
    Decode { plugin: String },
    /// A plugin reported failure.
    Failed { plugin: String, detail: String },
    /// The sandbox transport refused a guest module.
    Sandbox { plugin: String, error: crate::sandbox::SandboxError },
}

/// The ghost value of a preprocessor outcome: the output tree, or the error.
pub open spec fn outcome_view(r: Result<Book, PluginError>) -> Result<Seq<ItemView>, PluginError> {
    match r {
        Result::Ok(b) => Result::Ok(b@),
        Result::Err(e) => Result::Err(e),
    }
}

/// An operation run on the whole book after loading and before rendering.
/// `run_rel` is the functional model of one invocation: which pairs of
/// successor state and outcome one `run` call may produce.  A transport
/// whose plugin is outside code leaves `run_rel` wide; a deterministic
/// preprocessor pins it down to one outcome.
pub trait Preprocessor: Sized {
    /// The name the preprocessor reports.
    spec fn spec_name(&self) -> Seq<char>;

    /// Whether the preprocessor applies to the given renderer.
    spec fn spec_supports(&self, renderer: Seq<char>) -> bool;

    /// The possible outcomes of one invocation.
    spec fn run_rel(
        &self,
        renderer: Seq<char>,
        input: Seq<ItemView>,
        post: Self,
        out: Result<Seq<ItemView>, PluginError>,
    ) -> bool;

    /// The preprocessor's name.
    fn name(&self) -> (n: String)
        ensures
            n@ == self.spec_name(),
    ;

    /// A hint whether this preprocessor is compatible with a particular
    /// renderer.
    fn supports_renderer(&self, renderer: &str) -> (b: bool)
        ensures
            b == self.spec_supports(renderer@),
    ;

    /// Run the preprocessor: consume the book and produce its replacement,
    /// or the error that aborts the pass.
    fn run(&mut self, ctx: &PreprocessorContext, book: Book) -> (r: Result<Book, PluginError>)
        ensures
            old(self).run_rel(ctx@.renderer, book@, *final(self), outcome_view(r)),
    ;
}

/// An output backend consuming a fully preprocessed book.  `render_rel` is
/// the functional model of one invocation.
pub trait Renderer: Sized {
    /// The name the renderer reports.
    spec fn spec_name(&self) -> Seq<char>;

    /// The possible outcomes of one invocation.
    spec fn render_rel(&self, book: Seq<ItemView>, post: Self, out: Result<(), PluginError>) -> bool;

    /// The renderer's name.
    fn name(&self) -> (n: String)
        ensures
            n@ == self.spec_name(),
    ;

    /// Render the book.
    fn render(&mut self, book: &Book) -> (r: Result<(), PluginError>)
        ensures
            old(self).render_rel(book@, *final(self), r),
    ;
}

/// What one renderer pass may do to the tree and to the preprocessor
/// states, from preprocessor `i` on: each supported preprocessor runs on
/// the tree the previous one produced; an unsupported one is skipped with
/// tree and state untouched; the first failure is the pass's outcome, and
/// every preprocessor after it keeps its state — it is never invoked.
pub open spec fn pipeline_rel_from<P: Preprocessor>(
    pre: Seq<P>,
    post: Seq<P>,
    i: int,
    renderer: Seq<char>,
    b: Seq<ItemView>,
    out: Result<Seq<ItemView>, PluginError>,
) -> bool
    decreases pre.len() - i,
{
    pre.len() == post.len() && 0 <= i <= pre.len() && if i == pre.len() {
        out == Result::<Seq<ItemView>, PluginError>::Ok(b)
    } else {
        if !pre[i].spec_supports(renderer) {
            post[i] == pre[i] && pipeline_rel_from(pre, post, i + 1, renderer, b, out)
        } else {
            (exists|e: PluginError|
                pre[i].run_rel(renderer, b, post[i], Result::Err(e)) && out == Result::<
                    Seq<ItemView>,
                    PluginError,
                >::Err(e) && (forall|j: int| i < j < pre.len() ==> post[j] == pre[j])) || (
            exists|b2: Seq<ItemView>|
                pre[i].run_rel(renderer, b, post[i], Result::Ok(b2)) && pipeline_rel_from(
                    pre,
                    post,
                    i + 1,
                    renderer,
                    b2,
                    out,
                ))
        }
    }
}

/// What one whole renderer pass may do, from the first preprocessor.
pub open spec fn pipeline_rel<P: Preprocessor>(
    pre: Seq<P>,
    post: Seq<P>,
    renderer: Seq<char>,
    b: Seq<ItemView>,
    out: Result<Seq<ItemView>, PluginError>,
) -> bool {
    pipeline_rel_from(pre, post, 0, renderer, b, out)
}

/// The pass relation only reads the preprocessors from `i` on.
proof fn lemma_pipeline_rel_agree<P: Preprocessor>(
    pre1: Seq<P>,
    pre2: Seq<P>,
    post: Seq<P>,
    i: int,
    renderer: Seq<char>,
    b: Seq<ItemView>,
    out: Result<Seq<ItemView>, PluginError>,
)
    requires
        pre1.len() == pre2.len(),
        forall|j: int| i <= j < pre1.len() ==> pre1[j] == pre2[j],
        pipeline_rel_from(pre1, post, i, renderer, b, out),
    ensures
        pipeline_rel_from(pre2, post, i, renderer, b, out),
    decreases pre1.len() - i,
{
    if i == pre1.len() {
    } else {
        assert(pre1[i] == pre2[i]);
        if !pre1[i].spec_supports(renderer) {
            lemma_pipeline_rel_agree(pre1, pre2, post, i + 1, renderer, b, out);
        } else {
            if exists|e: PluginError|
                pre1[i].run_rel(renderer, b, post[i], Result::Err(e)) && out == Result::<
                    Seq<ItemView>,
                    PluginError,
                >::Err(e) && (forall|j: int| i < j < pre1.len() ==> post[j] == pre1[j]) {
                let e = choose|e: PluginError|
                    pre1[i].run_rel(renderer, b, post[i], Result::Err(e)) && out == Result::<
                        Seq<ItemView>,
                        PluginError,
                    >::Err(e) && (forall|j: int| i < j < pre1.len() ==> post[j] == pre1[j]);
                assert(pre2[i].run_rel(renderer, b, post[i], Result::Err(e)));
                assert(forall|j: int| i < j < pre2.len() ==> post[j] == pre2[j]);
            } else {
                let b2 = choose|b2: Seq<ItemView>|
                    pre1[i].run_rel(renderer, b, post[i], Result::Ok(b2)) && pipeline_rel_from(
                        pre1,
                        post,
                        i + 1,
                        renderer,
                        b2,
                        out,
                    );
                lemma_pipeline_rel_agree(pre1, pre2, post, i + 1, renderer, b2, out);
                assert(pre2[i].run_rel(renderer, b, post[i], Result::Ok(b2)));
            }
        }
    }
}

/// Apply the preprocessors from index `i` on.
fn run_preps_from<P: Preprocessor>(
    preps: &mut Vec<P>,
    i: usize,
    ctx: &PreprocessorContext,
    book: Book,
) -> (r: Result<Book, PluginError>)
    requires
        i <= old(preps)@.len(),
    ensures
        final(preps)@.len() == old(preps)@.len(),
        forall|j: int| 0 <= j < i ==> final(preps)@[j] == old(preps)@[j],
        pipeline_rel_from(old(preps)@, final(preps)@, i as int, ctx@.renderer, book@, outcome_view(r)),
    decreases old(preps)@.len() - i,
{
    let ghost orig = preps@;
    if i == preps.len() {
        return Result::Ok(book);
    }
    let mut p = preps.remove(i);
    let supported = p.supports_renderer(ctx.renderer.as_str());
    if !supported {
        preps.insert(i, p);
        let ghost mid = preps@;
        proof {
            assert(mid =~= orig);
        }
        let r = run_preps_from(preps, i + 1, ctx, book);
        proof {
            assert(pipeline_rel_from(orig, final(preps)@, i as int, ctx@.renderer, book@, outcome_view(r)));
        }
        r
    } else {
        let rr = p.run(ctx, book);
        match rr {
            Result::Err(e) => {
                preps.insert(i, p);
                proof {
                    let fin = preps@;
                    assert(fin =~= orig.update(i as int, p));
                    assert(orig[i as int].run_rel(
                        ctx@.renderer,
                        book@,
                        fin[i as int],
                        Result::Err(e),
                    ));
                    assert(forall|j: int| i < j < orig.len() ==> fin[j] == orig[j]);
                }
                Result::Err(e)
            },
            Result::Ok(b2) => {
                preps.insert(i, p);
                let ghost mid = preps@;
                let ghost vb2 = b2@;
                proof {
                    assert(mid =~= orig.update(i as int, p));
                }
                let r = run_preps_from(preps, i + 1, ctx, b2);
                proof {
                    let fin = preps@;
                    lemma_pipeline_rel_agree(
                        mid,
                        orig.update(i as int, p),
                        fin,
                        i + 1,
                        ctx@.renderer,
                        vb2,
                        outcome_view(r),
                    );
                    assert(fin[i as int] == mid[i as int]);
                    assert(orig[i as int].run_rel(ctx@.renderer, book@, fin[i as int], Result::Ok(vb2)));
                    assert(forall|j: int|
                        i + 1 <= j < orig.len() ==> orig.update(i as int, p)[j] == orig[j]);
                    lemma_pipeline_rel_agree(
                        orig.update(i as int, p),
                        orig,
                        fin,
                        i + 1,
                        ctx@.renderer,
                        vb2,
                        outcome_view(r),
                    );
                }
                r
            },
        }
    }
}

/// Apply each preprocessor that supports the pass's renderer, in declared
/// order, threading the book through; stop at the first failure.
pub fn run_preprocessors<P: Preprocessor>(
    preps: &mut Vec<P>,
    ctx: &PreprocessorContext,
    book: Book,
) -> (r: Result<Book, PluginError>)
    ensures
        final(preps)@.len() == old(preps)@.len(),
        pipeline_rel(old(preps)@, final(preps)@, ctx@.renderer, book@, outcome_view(r)),
{
    run_preps_from(preps, 0, ctx, book)
}

/// A pass whose renderer no preprocessor supports hands the tree through
/// byte for byte and leaves every preprocessor untouched.
pub proof fn lemma_unsupported_pass_is_identity<P: Preprocessor>(
    pre: Seq<P>,
    post: Seq<P>,
    renderer: Seq<char>,
    b: Seq<ItemView>,
    out: Result<Seq<ItemView>, PluginError>,
)
    requires
        pipeline_rel(pre, post, renderer, b, out),
        forall|i: int| 0 <= i < pre.len() ==> !pre[i].spec_supports(renderer),
    ensures
        out == Result::<Seq<ItemView>, PluginError>::Ok(b),
        post == pre,
{
    lemma_unsupported_pass_from(pre, post, 0, renderer, b, out);
    assert(post =~= pre);
}

/// The identity property of an all-skipped pass, from index `i` on.
proof fn lemma_unsupported_pass_from<P: Preprocessor>(
    pre: Seq<P>,
    post: Seq<P>,
    i: int,
    renderer: Seq<char>,
    b: Seq<ItemView>,
    out: Result<Seq<ItemView>, PluginError>,
)
    requires
        pipeline_rel_from(pre, post, i, renderer, b, out),
        forall|j: int| 0 <= j < pre.len() ==> !pre[j].spec_supports(renderer),
    ensures
        out == Result::<Seq<ItemView>, PluginError>::Ok(b),
        forall|j: int| i <= j < pre.len() ==> post[j] == pre[j],
    decreases pre.len() - i,
{
    if i < pre.len() {
        lemma_unsupported_pass_from(pre, post, i + 1, renderer, b, out);
    }
}

/// Fail-fast: when some supported preprocessor can only fail, the whole
/// pass fails — nothing after it, and no renderer, ever sees a tree.
pub proof fn lemma_fail_fast<P: Preprocessor>(
    pre: Seq<P>,
    post: Seq<P>,
    renderer: Seq<char>,
    b: Seq<ItemView>,
    out: Result<Seq<ItemView>, PluginError>,
    i: int,
)
    requires
        pipeline_rel(pre, post, renderer, b, out),
        0 <= i < pre.len(),
        pre[i].spec_supports(renderer),
        forall|bin: Seq<ItemView>, q: P, o: Result<Seq<ItemView>, PluginError>|
            pre[i].run_rel(renderer, bin, q, o) ==> o is Err,
    ensures
        out is Err,
{
    lemma_fail_fast_from(pre, post, 0, renderer, b, out, i);
}

/// Fail-fast, from index `j` on.
proof fn lemma_fail_fast_from<P: Preprocessor>(
    pre: Seq<P>,
    post: Seq<P>,
    j: int,
    renderer: Seq<char>,
    b: Seq<ItemView>,
    out: Result<Seq<ItemView>, PluginError>,
    i: int,
)
    requires
        pipeline_rel_from(pre, post, j, renderer, b, out),
        j <= i < pre.len(),
        pre[i].spec_supports(renderer),
        forall|bin: Seq<ItemView>, q: P, o: Result<Seq<ItemView>, PluginError>|
            pre[i].run_rel(renderer, bin, q, o) ==> o is Err,
    ensures
        out is Err,
    decreases i - j,
{
    if j == i {
        if exists|b2: Seq<ItemView>|
            pre[j].run_rel(renderer, b, post[j], Result::Ok(b2)) && pipeline_rel_from(
                pre,
                post,
                j + 1,
                renderer,
                b2,
                out,
            ) {
            let b2 = choose|b2: Seq<ItemView>|
                pre[j].run_rel(renderer, b, post[j], Result::Ok(b2)) && pipeline_rel_from(
                    pre,
                    post,
                    j + 1,
                    renderer,
                    b2,
                    out,
                );
            assert(Result::<Seq<ItemView>, PluginError>::Ok(b2) is Err);
        }
    } else {
        if !pre[j].spec_supports(renderer) {
            lemma_fail_fast_from(pre, post, j + 1, renderer, b, out, i);
        } else if exists|b2: Seq<ItemView>|
            pre[j].run_rel(renderer, b, post[j], Result::Ok(b2)) && pipeline_rel_from(
                pre,
                post,
                j + 1,
                renderer,
                b2,
                out,
            ) {
            let b2 = choose|b2: Seq<ItemView>|
                pre[j].run_rel(renderer, b, post[j], Result::Ok(b2)) && pipeline_rel_from(
                    pre,
                    post,
                    j + 1,
                    renderer,
                    b2,
                    out,
                );
            lemma_fail_fast_from(pre, post, j + 1, renderer, b2, out, i);
        }
    }
}

/// What one renderer's pass may do: a failing preprocessing chain aborts
/// the pass with that error and the renderer is not invoked — its state is
/// untouched; a successful chain hands its final tree to the renderer.
pub open spec fn pass_rel<P: Preprocessor, R: Renderer>(
    pp: Seq<P>,
    pq: Seq<P>,
    r_pre: R,
    r_post: R,
    b: Seq<ItemView>,
    out: Result<(), PluginError>,
) -> bool {
    (exists|e: PluginError|
        pipeline_rel(pp, pq, r_pre.spec_name(), b, Result::Err(e)) && out == Result::<
            (),
            PluginError,
        >::Err(e) && r_post == r_pre) || (exists|b2: Seq<ItemView>|
        pipeline_rel(pp, pq, r_pre.spec_name(), b, Result::Ok(b2)) && r_pre.render_rel(
            b2,
            r_post,
            out,
        ))
}

/// What a whole build may do from renderer `k` on: every renderer is
/// attempted with its own pass over the same loaded tree, whatever became
/// of the passes before it, and the preprocessor states thread through the
/// passes in order.
pub open spec fn build_rel_from<P: Preprocessor, R: Renderer>(
    pp: Seq<P>,
    pq: Seq<P>,
    rp: Seq<R>,
    rq: Seq<R>,
    k: int,
    b: Seq<ItemView>,
    outs: Seq<Result<(), PluginError>>,
) -> bool
    decreases rp.len() - k,
{
    pp.len() == pq.len() && rp.len() == rq.len() && 0 <= k <= rp.len() && outs.len() == rp.len()
        - k && if k == rp.len() {
        pq == pp
    } else {
        exists|pmid: Seq<P>|
            #[trigger] pass_rel(pp, pmid, rp[k], rq[k], b, outs.first()) && build_rel_from(
                pmid,
                pq,
                rp,
                rq,
                k + 1,
                b,
                outs.drop_first(),
            )
    }
}

/// The build relation only reads the renderers from `k` on.
proof fn lemma_build_rel_agree<P: Preprocessor, R: Renderer>(
    pp: Seq<P>,
    pq: Seq<P>,
    rp1: Seq<R>,
    rp2: Seq<R>,
    rq: Seq<R>,
    k: int,
    b: Seq<ItemView>,
    outs: Seq<Result<(), PluginError>>,
)
    requires
        rp1.len() == rp2.len(),
        forall|j: int| k <= j < rp1.len() ==> rp1[j] == rp2[j],
        build_rel_from(pp, pq, rp1, rq, k, b, outs),
    ensures
        build_rel_from(pp, pq, rp2, rq, k, b, outs),
    decreases rp1.len() - k,
{
    if k < rp1.len() {
        let pmid = choose|pmid: Seq<P>|
            #[trigger] pass_rel(pp, pmid, rp1[k], rq[k], b, outs.first()) && build_rel_from(
                pmid,
                pq,
                rp1,
                rq,
                k + 1,
                b,
                outs.drop_first(),
            );
        lemma_build_rel_agree(pmid, pq, rp1, rp2, rq, k + 1, b, outs.drop_first());
        assert(pass_rel(pp, pmid, rp2[k], rq[k], b, outs.first()));
    }
}

/// Run the passes for the renderers from index `k` on.
fn build_from<P: Preprocessor, R: Renderer>(
    book: &Book,
    preps: &mut Vec<P>,
    renderers: &mut Vec<R>,
    k: usize,
    root: &str,
    config: &Config,
) -> (outs: Vec<Result<(), PluginError>>)
    requires
        k <= old(renderers)@.len(),
    ensures
        final(preps)@.len() == old(preps)@.len(),
        final(renderers)@.len() == old(renderers)@.len(),
        forall|j: int| 0 <= j < k ==> final(renderers)@[j] == old(renderers)@[j],
        outs@.len() == old(renderers)@.len() - k,
        build_rel_from(
            old(preps)@,
            final(preps)@,
            old(renderers)@,
            final(renderers)@,
            k as int,
            book@,
            outs@,
        ),
    decreases old(renderers)@.len() - k,
{
    let ghost rorig = renderers@;
    let ghost porig = preps@;
    if k == renderers.len() {
        return Vec::new();
    }
    let mut r = renderers.remove(k);
    let rname = r.name();
    let ctx = PreprocessorContext::new(root.to_owned(), config.duplicate(), rname);
    let pass_book = crate::book::clone_book(book);
    let pres = run_preprocessors(preps, &ctx, pass_book);
    let ghost pmid = preps@;
    let out_k: Result<(), PluginError> = match pres {
        Result::Err(e) => Result::Err(e),
        Result::Ok(b2) => r.render(&b2),
    };
    renderers.insert(k, r);
    let ghost rmid = renderers@;
    proof {
        assert(rmid =~= rorig.update(k as int, r));
        assert(pass_rel(porig, pmid, rorig[k as int], rmid[k as int], book@, out_k)) by {
            match pres {
                Result::Err(e) => {
                    assert(pipeline_rel(porig, pmid, rorig[k as int].spec_name(), book@, Result::Err(e)));
                }
                Result::Ok(b2) => {
                    assert(pipeline_rel(porig, pmid, rorig[k as int].spec_name(), book@, Result::Ok(b2@)));
                    assert(rorig[k as int].render_rel(b2@, rmid[k as int], out_k));
                }
            }
        }
    }
    let rest = build_from(book, preps, renderers, k + 1, root, config);
    let mut outs = rest;
    outs.insert(0, out_k);
    proof {
        let fin_r = renderers@;
        let fin_p = preps@;
        assert(outs@.first() == out_k);
        assert(outs@.drop_first() =~= rest@);
        assert(fin_r[k as int] == rmid[k as int]);
        assert(build_rel_from(pmid, fin_p, rmid, fin_r, k + 1, book@, rest@));
        lemma_build_rel_agree(pmid, fin_p, rmid, rorig, fin_r, k + 1, book@, rest@);
        assert(pass_rel(porig, pmid, rorig[k as int], fin_r[k as int], book@, outs@.first()));
    }
    outs
}

/// Run the full build: for each renderer in turn, preprocess the loaded
/// book in its own pass and hand the result to the renderer.  Every
/// renderer is attempted; the returned list holds one outcome per renderer,
/// in order.
pub fn build<P: Preprocessor, R: Renderer>(
    book: &Book,
    preps: &mut Vec<P>,
    renderers: &mut Vec<R>,
    root: &str,
    config: &Config,
) -> (outs: Vec<Result<(), PluginError>>)
    ensures
        final(preps)@.len() == old(preps)@.len(),
        final(renderers)@.len() == old(renderers)@.len(),
        outs@.len() == old(renderers)@.len(),
        build_rel_from(
            old(preps)@,
            final(preps)@,
            old(renderers)@,
            final(renderers)@,
            0,
            book@,
            outs@,
        ),
{
    build_from(book, preps, renderers, 0, root, config)
}

/// A preprocessor that records how it is driven: it counts its invocations
/// and remembers each renderer it was run with.  It hands the tree through
/// unchanged, or reports failure on every invocation when built to fail.
/// It stands in for an external plugin where a pipeline is observed from
/// outside.
#[derive(Debug, PartialEq)]
pub struct ProbePreprocessor {
    /// How many times the preprocessor has run, saturating.
    pub run_count: u64,
    /// The renderers it was run with, in order.
    pub rendered_with: Vec<String>,
    /// Whether every invocation reports failure.
    pub fail: bool,
}

impl ProbePreprocessor {
    /// A fresh probe that has seen nothing and succeeds when run.
    pub fn new() -> (p: ProbePreprocessor)
        ensures
            p.run_count == 0,
            p.rendered_with@.len() == 0,
            !p.fail,
    {
        ProbePreprocessor { run_count: 0, rendered_with: Vec::new(), fail: false }
    }

    /// A fresh probe whose every invocation reports failure.
    pub fn failing() -> (p: ProbePreprocessor)
        ensures
            p.run_count == 0,
            p.rendered_with@.len() == 0,
            p.fail,
    {
        ProbePreprocessor { run_count: 0, rendered_with: Vec::new(), fail: true }
    }
}

impl Preprocessor for ProbePreprocessor {
    open spec fn spec_name(&self) -> Seq<char> {
        "probe"@
    }

    open spec fn spec_supports(&self, renderer: Seq<char>) -> bool {
        true
    }

    open spec fn run_rel(
        &self,
        renderer: Seq<char>,
        input: Seq<ItemView>,
        post: Self,
        out: Result<Seq<ItemView>, PluginError>,
    ) -> bool {
        &&& post.run_count == if self.run_count < u64::MAX {
            (self.run_count + 1) as u64
        } else {
            u64::MAX
        }
        &&& strings_view(post.rendered_with@) == strings_view(self.rendered_with@).push(renderer)
        &&& post.fail == self.fail
        &&& if self.fail {
            match out {
                Result::Ok(_) => false,
                Result::Err(e) => e matches PluginError::Failed { plugin, detail } && plugin@
                    == "probe"@,
            }
        } else {
            out == Result::<Seq<ItemView>, PluginError>::Ok(input)
        }
    }

    fn name(&self) -> (n: String) {
        "probe".to_owned()
    }

    fn supports_renderer(&self, renderer: &str) -> (b: bool) {
        true
    }

    fn run(&mut self, ctx: &PreprocessorContext, book: Book) -> (r: Result<Book, PluginError>) {
        if self.run_count < u64::MAX {
            self.run_count = self.run_count + 1;
        }
        self.rendered_with.push(ctx.renderer.clone());
        proof {
            crate::book::lemma_strings_view_push(
                old(self).rendered_with@,
                self.rendered_with@.last(),
            );
            assert(self.rendered_with@.drop_last() =~= old(self).rendered_with@);
            assert(self.rendered_with@ =~= old(self).rendered_with@.push(
                self.rendered_with@.last(),
            ));
        }
        if self.fail {
            Result::Err(
                PluginError::Failed {
                    plugin: "probe".to_owned(),
                    detail: "this preprocessor is built to fail".to_owned(),
                },
            )
        } else {
            Result::Ok(book)
        }
    }
}

/// A preprocessor that appends one separator to the tree and supports only
/// the renderer it is configured with: both running and being skipped are
/// observable on the output tree.
#[derive(Debug, PartialEq)]
pub struct StampPreprocessor {
    /// The only renderer this preprocessor supports.
    pub only: String,
}

impl Preprocessor for StampPreprocessor {
    open spec fn spec_name(&self) -> Seq<char> {
        "stamp"@
    }

    open spec fn spec_supports(&self, renderer: Seq<char>) -> bool {
        renderer == self.only@
    }

    open spec fn run_rel(
        &self,
        renderer: Seq<char>,
        input: Seq<ItemView>,
        post: Self,
        out: Result<Seq<ItemView>, PluginError>,
    ) -> bool {
        &&& post == *self
        &&& out == Result::<Seq<ItemView>, PluginError>::Ok(input.push(ItemView::Separator))
    }

    fn name(&self) -> (n: String) {
        "stamp".to_owned()
    }

    fn supports_renderer(&self, renderer: &str) -> (b: bool) {
        str_eq(renderer, self.only.as_str())
    }

    fn run(&mut self, ctx: &PreprocessorContext, book: Book) -> (r: Result<Book, PluginError>) {
        let mut b = book;
        b.push_item(BookItem::Separator);
        Result::Ok(b)
    }
}

/// A renderer that counts its invocations and otherwise does nothing.  It
/// stands in for an output backend where a build is observed from outside.
#[derive(Debug, PartialEq)]
pub struct ProbeRenderer {
    /// The name the renderer reports.
    pub label: String,
    /// How many times the renderer has run, saturating.
    pub run_count: u64,
    /// Whether every invocation reports failure.
    pub fail: bool,
}

impl ProbeRenderer {
    /// A fresh probe under the given name that has seen nothing and
    /// succeeds when run.
    pub fn new(label: String) -> (p: ProbeRenderer)
        ensures
            p.label == label,
            p.run_count == 0,
            !p.fail,
    {
        ProbeRenderer { label, run_count: 0, fail: false }
    }

    /// A fresh probe whose every invocation reports failure.
    pub fn failing(label: String) -> (p: ProbeRenderer)
        ensures
            p.label == label,
            p.run_count == 0,
            p.fail,
    {
        ProbeRenderer { label, run_count: 0, fail: true }
    }
}

impl Renderer for ProbeRenderer {
    open spec fn spec_name(&self) -> Seq<char> {
        self.label@
    }

    open spec fn render_rel(
        &self,
        book: Seq<ItemView>,
        post: Self,
        out: Result<(), PluginError>,
    ) -> bool {
        &&& post.run_count == if self.run_count < u64::MAX {
            (self.run_count + 1) as u64
        } else {
            u64::MAX
        }
        &&& post.fail == self.fail
        &&& post.label == self.label
        &&& if self.fail {
            match out {
                Result::Ok(_) => false,
                Result::Err(e) => e matches PluginError::Failed { plugin, detail } && plugin@
                    == self.label@,
            }
        } else {
            out == Result::<(), PluginError>::Ok(())
        }
    }

    fn name(&self) -> (n: String) {
        self.label.clone()
    }

    fn render(&mut self, book: &Book) -> (r: Result<(), PluginError>) {
        if self.run_count < u64::MAX {
            self.run_count = self.run_count + 1;
        }
        if self.fail {
            Result::Err(
                PluginError::Failed {
                    plugin: self.label.clone(),
                    detail: "this renderer is built to fail".to_owned(),
                },
            )
        } else {
            Result::Ok(())
        }
    }
}

} // verus!
