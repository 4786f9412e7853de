//! Small computations behind the application's commands: the greeting and
//! the reply to a Typst compilation.

use vstd::prelude::*;
use crate::ast::TypstCompileResult;
use crate::text::{push_str, str_chars, string_from_chars};

verus! {

/// The greeting for `name`.
pub open spec fn spec_greeting(name: Seq<char>) -> Seq<char> {
    "Hello, "@ + name + "! You've been greeted from Rust!"@
}

/// Greets `name`.
pub fn greet(name: &str) -> (g: String)
    ensures
        g@ == spec_greeting(name@),
{
    let mut out = str_chars("Hello, ");
    push_str(&mut out, name);
    push_str(&mut out, "! You've been greeted from Rust!");
    string_from_chars(&out)
}

/// The messages joined by newlines.
pub open spec fn joined_lines(msgs: Seq<Seq<char>>) -> Seq<char>
    decreases msgs.len(),
{
    if msgs.len() == 0 {
        Seq::empty()
    } else if msgs.len() == 1 {
        msgs[0]
    } else {
        joined_lines(msgs.drop_last()) + seq!['\n'] + msgs.last()
    }
}

/// The reply to a Typst compilation: the SVG of a compiled document, or the
/// error messages one per line.
pub fn typst_compile_result(outcome: Result<String, Vec<String>>) -> (r: TypstCompileResult)
    ensures
        match outcome {
            Ok(svg) => r matches TypstCompileResult::Success { svg: s } && s@ == svg@,
            Err(msgs) => r matches TypstCompileResult::Error { message } && message@
                == joined_lines(Seq::new(msgs@.len(), |i: int| msgs@[i]@)),
        },
{
    match outcome {
        Ok(svg) => TypstCompileResult::Success { svg },
        Err(msgs) => {
            let ghost all = Seq::new(msgs@.len(), |i: int| msgs@[i]@);
            let mut out: Vec<char> = Vec::new();
            let mut i: usize = 0;
            while i < msgs.len()
                invariant
                    all == Seq::new(msgs@.len(), |k: int| msgs@[k]@),
                    i <= msgs.len(),
                    out@ == joined_lines(all.take(i as int)),
                decreases msgs.len() - i,
            {
                if i > 0 {
                    out.push('\n');
                }
                push_str(&mut out, msgs[i].as_str());
                proof {
                    assert(all.take(i + 1).drop_last() =~= all.take(i as int));
                    if i == 0 {
                        assert(out@ =~= joined_lines(all.take(1)));
                    }
                }
                i = i + 1;
            }
            assert(all.take(msgs.len() as int) =~= all);
            TypstCompileResult::Error { message: string_from_chars(&out) }
        },
    }
}

} // verus!
