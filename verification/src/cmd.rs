//! The out-of-process plugin transport.
//!
//! The book and the build context travel to an external program's input
//! stream as one self-delimited text document; the program's output stream
//! carries one tree document back.  Spawning the program and moving the
//! bytes is the embedding driver's part; the document formats, their round
//! trip and the exit-code protocol are here.

use vstd::prelude::*;

use crate::book::{Book, ItemView, items_view};
use crate::codec::{atoms_of_str, atoms_of_book, atoms_of_items, parse_str, parse_atom,
    parse_items, parse_hex_bytes, parse_le_atoms, hex_of_bytes, le_bytes_of_atoms, str_bounded,
    items_bounded, lemma_subrange_split, lemma_parse_str_completes, lemma_parse_items_completes,
    lemma_parse_hex_of_encoding, lemma_parse_le_atoms_of_encoding, enc_str, enc_items, dec_str,
    dec_items, atoms_to_le_bytes, le_bytes_to_atoms, bytes_to_hex, hex_to_bytes};
use crate::pipeline::{Config, ContextView, PreprocessorContext};

verus! {

/// The exit code with which an external plugin signals, on the
/// compatibility check, that it does not support the requested renderer.
/// Exit code zero means supported; any other non-zero exit code is a hard
/// failure.
pub const UNSUPPORTED_RENDERER_EXIT_CODE: i32 = 2;

/// The outcome of a compatibility-check invocation.
#[derive(Debug, PartialEq)]
pub enum SupportDecision {
    /// The plugin supports the renderer and will be run.
    Supported,
    /// The plugin declines this renderer; it is skipped without error.
    Unsupported,
    /// The check itself failed; the whole pipeline fails.
    CheckFailed,
}

/// Classify the exit code of a compatibility-check invocation.
pub fn classify_support_exit(code: i32) -> (d: SupportDecision)
    ensures
        (d == SupportDecision::Supported) <==> code == 0,
        (d == SupportDecision::Unsupported) <==> code == UNSUPPORTED_RENDERER_EXIT_CODE,
        (d == SupportDecision::CheckFailed) <==> (code != 0 && code
            != UNSUPPORTED_RENDERER_EXIT_CODE),
{
    if code == 0 {
        SupportDecision::Supported
    } else if code == UNSUPPORTED_RENDERER_EXIT_CODE {
        SupportDecision::Unsupported
    } else {
        SupportDecision::CheckFailed
    }
}

/// Whether the exit code of a run invocation is fatal: any non-zero code
/// is, whatever the output stream holds.
pub fn run_exit_is_fatal(code: i32) -> (fatal: bool)
    ensures
        fatal <==> code != 0,
{
    code != 0
}

/// The atoms of one input document: the four context fields, then the
/// whole book.
pub open spec fn atoms_of_input(ctx: ContextView, b: Seq<ItemView>) -> Seq<u64> {
    atoms_of_str(ctx.root) + atoms_of_str(ctx.config) + atoms_of_str(ctx.renderer) + atoms_of_str(
        ctx.mdbook_version,
    ) + atoms_of_book(b)
}

/// The text wire of one input document.
pub open spec fn input_wire(ctx: ContextView, b: Seq<ItemView>) -> Seq<u8> {
    hex_of_bytes(le_bytes_of_atoms(atoms_of_input(ctx, b)))
}

/// A context whose fields are short enough to encode, together with a
/// representable book.  Every context and book held in memory satisfy this.
pub open spec fn input_bounded(ctx: ContextView, b: Seq<ItemView>) -> bool {
    str_bounded(ctx.root) && str_bounded(ctx.config) && str_bounded(ctx.renderer) && str_bounded(
        ctx.mdbook_version,
    ) && items_bounded(b)
}

/// Reading one input document back from its atoms, consuming the stream in
/// full.
pub open spec fn parse_input_atoms(atoms: Seq<u64>) -> Option<(ContextView, Seq<ItemView>)> {
    match parse_str(atoms, 0) {
        Option::None => Option::None,
        Option::Some((root, p1)) => match parse_str(atoms, p1) {
            Option::None => Option::None,
            Option::Some((config, p2)) => match parse_str(atoms, p2) {
                Option::None => Option::None,
                Option::Some((renderer, p3)) => match parse_str(atoms, p3) {
                    Option::None => Option::None,
                    Option::Some((version, p4)) => match parse_atom(atoms, p4) {
                        Option::None => Option::None,
                        Option::Some((n, p5)) => match parse_items(atoms, p5, n as int) {
                            Option::None => Option::None,
                            Option::Some((items, p6)) => {
                                if p6 == atoms.len() {
                                    Option::Some(
                                        (
                                            ContextView {
                                                root,
                                                config,
                                                renderer,
                                                mdbook_version: version,
                                            },
                                            items,
                                        ),
                                    )
                                } else {
                                    Option::None
                                }
                            },
                        },
                    },
                },
            },
        },
    }
}

/// What parsing one input document yields.
pub open spec fn spec_parse_input(text: Seq<u8>) -> Option<(ContextView, Seq<ItemView>)> {
    match parse_hex_bytes(text) {
        Option::None => Option::None,
        Option::Some(bytes) => match parse_le_atoms(bytes) {
            Option::None => Option::None,
            Option::Some(atoms) => parse_input_atoms(atoms),
        },
    }
}

/// A preprocessor that runs as an external program, identified by a name
/// and the command to invoke.
#[derive(Debug, PartialEq)]
pub struct CmdPreprocessor {
    name: String,
    cmd: String,
}

impl CmdPreprocessor {
    /// The name the preprocessor reports.
    pub closed spec fn spec_name(&self) -> Seq<char> {
        self.name@
    }

    /// The command the driver invokes.
    pub closed spec fn spec_cmd(&self) -> Seq<char> {
        self.cmd@
    }

    /// Create a new process preprocessor from its name and its command.
    pub fn new(name: String, cmd: String) -> (p: CmdPreprocessor)
        ensures
            p.spec_name() == name@,
            p.spec_cmd() == cmd@,
    {
        CmdPreprocessor { name, cmd }
    }

    /// The preprocessor's name.
    pub fn name(&self) -> (n: &str)
        ensures
            n@ == self.spec_name(),
    {
        self.name.as_str()
    }

    /// The command the driver invokes.
    pub fn cmd(&self) -> (c: &str)
        ensures
            c@ == self.spec_cmd(),
    {
        self.cmd.as_str()
    }

    /// Serialize the build context and the book as the text document the
    /// external program reads from its input stream.
    pub fn write_input(&self, book: &Book, ctx: &PreprocessorContext) -> (out: Vec<u8>)
        ensures
            out@ == input_wire(ctx@, book@),
            input_bounded(ctx@, book@),
    {
        let mut atoms: Vec<u64> = Vec::new();
        enc_str(&ctx.root, &mut atoms);
        enc_str(&ctx.config.text, &mut atoms);
        enc_str(&ctx.renderer, &mut atoms);
        enc_str(&ctx.mdbook_version, &mut atoms);
        atoms.push(book.sections.len() as u64);
        proof {
            crate::book::lemma_items_view_index(book.sections@);
        }
        enc_items(&book.sections, &mut atoms);
        proof {
            assert(atoms@ =~= atoms_of_input(ctx@, book@)) by {
                assert(atoms_of_book(book@) =~= seq![book@.len() as u64] + atoms_of_items(book@));
            }
        }
        let bytes = atoms_to_le_bytes(&atoms);
        bytes_to_hex(&bytes)
    }

    /// Parse an input document back into the build context and the book.
    /// Succeeds exactly when the text is one well-formed input document.
    pub fn parse_input(text: &Vec<u8>) -> (r: Option<(PreprocessorContext, Book)>)
        ensures
            match r {
                Option::Some(p) => spec_parse_input(text@) == Option::Some((p.0@, p.1@)),
                Option::None => spec_parse_input(text@) is None,
            },
    {
        let bytes = match hex_to_bytes(text) {
            Option::None => {
                return Option::None;
            },
            Option::Some(bytes) => bytes,
        };
        let atoms = match le_bytes_to_atoms(&bytes) {
            Option::None => {
                return Option::None;
            },
            Option::Some(atoms) => atoms,
        };
        let (root, p1) = match dec_str(&atoms, 0) {
            Option::None => {
                return Option::None;
            },
            Option::Some(sp) => sp,
        };
        let (config, p2) = match dec_str(&atoms, p1) {
            Option::None => {
                return Option::None;
            },
            Option::Some(sp) => sp,
        };
        let (renderer, p3) = match dec_str(&atoms, p2) {
            Option::None => {
                return Option::None;
            },
            Option::Some(sp) => sp,
        };
        let (version, p4) = match dec_str(&atoms, p3) {
            Option::None => {
                return Option::None;
            },
            Option::Some(sp) => sp,
        };
        if p4 >= atoms.len() {
            return Option::None;
        }
        let n = atoms[p4];
        let p5 = p4 + 1;
        let (sections, p6) = match dec_items(&atoms, p5, n) {
            Option::None => {
                return Option::None;
            },
            Option::Some(vp) => vp,
        };
        if p6 != atoms.len() {
            return Option::None;
        }
        let ctx = PreprocessorContext {
            root,
            config: Config { text: config },
            renderer,
            mdbook_version: version,
        };
        Option::Some((ctx, Book { sections }))
    }
}

/// Round trip over the process transport's input document: parsing the
/// written document yields the context and the book back, in full.
pub proof fn lemma_input_round_trip(ctx: ContextView, b: Seq<ItemView>)
    requires
        input_bounded(ctx, b),
    ensures
        spec_parse_input(input_wire(ctx, b)) == Option::Some((ctx, b)),
{
    let atoms = atoms_of_input(ctx, b);
    lemma_parse_hex_of_encoding(le_bytes_of_atoms(atoms));
    lemma_parse_le_atoms_of_encoding(atoms);
    let e1 = atoms_of_str(ctx.root);
    let e2 = atoms_of_str(ctx.config);
    let e3 = atoms_of_str(ctx.renderer);
    let e4 = atoms_of_str(ctx.mdbook_version);
    let e5 = seq![b.len() as u64];
    let e6 = atoms_of_items(b);
    assert(atoms =~= e1 + (e2 + (e3 + (e4 + (e5 + e6)))));
    let q1 = e1.len() as int;
    let q2 = q1 + e2.len();
    let q3 = q2 + e3.len();
    let q4 = q3 + e4.len();
    let q5 = q4 + 1;
    let q6 = q5 + e6.len();
    assert(atoms.subrange(0, atoms.len() as int) =~= atoms);
    lemma_subrange_split(atoms, 0, e1, e2 + (e3 + (e4 + (e5 + e6))));
    lemma_subrange_split(atoms, q1, e2, e3 + (e4 + (e5 + e6)));
    lemma_subrange_split(atoms, q2, e3, e4 + (e5 + e6));
    lemma_subrange_split(atoms, q3, e4, e5 + e6);
    lemma_subrange_split(atoms, q4, e5, e6);
    lemma_parse_str_completes(atoms, 0, ctx.root);
    lemma_parse_str_completes(atoms, q1, ctx.config);
    lemma_parse_str_completes(atoms, q2, ctx.renderer);
    lemma_parse_str_completes(atoms, q3, ctx.mdbook_version);
    assert(atoms.subrange(q4, q5)[0] == atoms[q4]);
    assert(atoms[q4] == b.len() as u64);
    lemma_parse_items_completes(atoms, q5, b);
}

} // verus!
