//! The front end of an assembler for a small 8-bit machine: source text is
//! lexed into positioned tokens, parsed line by line into a concrete syntax
//! tree, and lowered into a closed-vocabulary AST. Every problem becomes a
//! diagnostic; none stops the pipeline.
use vstd::prelude::*;

pub mod ast;
pub mod error;
pub mod laws;
pub mod lexer;
pub mod lower;
pub mod syntax;
pub mod text;

use crate::ast::{Ast, StatementView};
use crate::error::SyntaxError;
use crate::lexer::lex;
use crate::lower::{consume, lower_all, reports_faults, Fault};
use crate::syntax::{faults_of, parse, parse_tokens};

verus! {

/// The faults of the lines that do not parse, in order.
pub open spec fn parse_faults(src: Seq<char>) -> Seq<Fault> {
    faults_of(src, parse_tokens(src, lex(src)).fails)
}

/// The statements of `src` that lower, and the faults of those that do not.
pub open spec fn lowered(src: Seq<char>) -> (Seq<StatementView>, Seq<Fault>) {
    lower_all(src, parse_tokens(src, lex(src)).nodes)
}

/// Two lists of faults, each in source order, merged into one in source order;
/// on equal positions the first list goes first.
pub open spec fn merge(a: Seq<Fault>, b: Seq<Fault>) -> Seq<Fault>
    decreases a.len() + b.len(),
{
    if a.len() == 0 {
        b
    } else if b.len() == 0 {
        a
    } else if a[0].1.start <= b[0].1.start {
        seq![a[0]] + merge(a.drop_first(), b)
    } else {
        seq![b[0]] + merge(a, b.drop_first())
    }
}

/// All diagnostics of `src`: those of parsing merged with those of lowering.
pub open spec fn diagnostics(src: Seq<char>) -> Seq<Fault> {
    merge(parse_faults(src), lowered(src).1)
}

fn merge_diags(
    src: &Vec<char>,
    a: Vec<SyntaxError>,
    b: Vec<SyntaxError>,
    fa: Ghost<Seq<Fault>>,
    fb: Ghost<Seq<Fault>>,
) -> (r: Vec<SyntaxError>)
    requires
        reports_faults(src@, a@, fa@),
        reports_faults(src@, b@, fb@),
    ensures
        reports_faults(src@, r@, merge(fa@, fb@)),
{
    let mut out: Vec<SyntaxError> = Vec::new();
    let ghost mut done: Seq<Fault> = Seq::empty();
    let mut i: usize = 0;
    let mut j: usize = 0;
    assert(fa@.subrange(0, fa@.len() as int) =~= fa@);
    assert(fb@.subrange(0, fb@.len() as int) =~= fb@);
    assert(done + merge(fa@, fb@) =~= merge(fa@, fb@));
    while i < a.len() || j < b.len()
        invariant
            reports_faults(src@, a@, fa@),
            reports_faults(src@, b@, fb@),
            i <= a@.len(),
            j <= b@.len(),
            reports_faults(src@, out@, done),
            merge(fa@, fb@) == done + merge(
                fa@.subrange(i as int, fa@.len() as int),
                fb@.subrange(j as int, fb@.len() as int),
            ),
        decreases a@.len() + b@.len() - i - j,
    {
        let ghost ra = fa@.subrange(i as int, fa@.len() as int);
        let ghost rb = fb@.subrange(j as int, fb@.len() as int);
        let take_a = j >= b.len() || (i < a.len() && a[i].offsets.start <= b[j].offsets.start);
        if take_a {
            assert(ra[0] == fa@[i as int]);
            assert(ra.drop_first() =~= fa@.subrange(i + 1, fa@.len() as int));
            proof {
                if rb.len() == 0 {
                    assert(ra =~= seq![ra[0]] + ra.drop_first());
                }
            }
            let d = a[i].clone();
            out.push(d);
            proof {
                assert(done + (seq![ra[0]] + merge(ra.drop_first(), rb)) =~= done.push(ra[0]) + merge(ra.drop_first(), rb));
                done = done.push(ra[0]);
            }
            i = i + 1;
        } else {
            assert(rb[0] == fb@[j as int]);
            assert(rb.drop_first() =~= fb@.subrange(j + 1, fb@.len() as int));
            let d = b[j].clone();
            out.push(d);
            proof {
                assert(done + (seq![rb[0]] + merge(ra, rb.drop_first())) =~= done.push(rb[0]) + merge(ra, rb.drop_first()));
                done = done.push(rb[0]);
            }
            j = j + 1;
        }
    }
    assert(merge(fa@.subrange(i as int, fa@.len() as int), fb@.subrange(j as int, fb@.len() as int)) =~= Seq::<Fault>::empty());
    assert(done + Seq::<Fault>::empty() =~= done);
    out
}

/// Runs the whole front end on `source`: the AST of the statements that parse
/// and lower, and every diagnostic, in source order.
pub fn assemble(source: &str) -> (r: (Ast, Vec<SyntaxError>))
    requires
        source@.len() < usize::MAX,
    ensures
        r.0@ == lowered(source@).0,
        reports_faults(source@, r.1@, diagnostics(source@)),
{
    let src = crate::text::chars_of(source);
    let (cst, parse_diags) = parse(&src);
    let (ast, lower_diags) = consume(&src, &cst);
    let ghost pf = parse_faults(src@);
    assert(reports_faults(src@, parse_diags@, pf));
    let diags = merge_diags(&src, parse_diags, lower_diags, Ghost(pf), Ghost(lowered(src@).1));
    (ast, diags)
}

} // verus!
