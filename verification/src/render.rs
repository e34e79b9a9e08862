//! Rendering for the emitted graph-description file: escaping of
//! quoted text, and the one line each surviving node turns into.

use vstd::prelude::*;
use vstd::string::StringExecFns;
use crate::paper::ProtoPaper;
use crate::paper::StubView;

verus! {

/// How a single character renders inside a quoted label: `"` becomes
/// `\"`, `\` becomes `\\`, and every other character stands as itself.
pub open spec fn escape_char(c: char) -> Seq<char> {
    if c == '\\' {
        seq!['\\', '\\']
    } else if c == '"' {
        seq!['\\', '"']
    } else {
        seq![c]
    }
}

/// The fully escaped form of a string: each character replaced by its
/// rendering, in order.
pub open spec fn escape_spec(s: Seq<char>) -> Seq<char>
    decreases s.len(),
{
    if s.len() == 0 {
        Seq::empty()
    } else {
        escape_spec(s.drop_last()) + escape_char(s.last())
    }
}

/// Relies on `String`'s `FromIterator<char>` implementation: collecting
/// a vector of characters yields the string of exactly those characters.
#[verifier::external_body]
fn chars_to_string(v: Vec<char>) -> (r: String)
    ensures
        r@ == v@,
{
    v.into_iter().collect()
}

/// Escape `"` and replace `\` with `\\`.
pub fn escape(s: &str) -> (r: String)
    ensures
        r@ == escape_spec(s@),
{
    let mut out: Vec<char> = Vec::new();
    for c in it: s.chars()
        invariant
            it.seq() == s@,
            out@ == escape_spec(it.seq().take(it.index() as int)),
    {
        if c == '\\' {
            out.push('\\');
            out.push('\\');
        } else if c == '"' {
            out.push('\\');
            out.push('"');
        } else {
            out.push(c);
        }
        proof {
            let i = it.index() as int;
            assert(it.seq().take(i + 1).drop_last() =~= it.seq().take(i));
            assert(it.seq().take(i + 1).last() == c);
        }
    }
    proof {
        assert(s@.take(s@.len() as int) =~= s@);
    }
    chars_to_string(out)
}

/// An optional field as it renders: its text, or nothing.
pub open spec fn opt_text(o: Option<Seq<char>>) -> Seq<char> {
    match o {
        Some(s) => s,
        None => Seq::empty(),
    }
}

/// The one output line a surviving node turns into: its id quoted, its
/// escaped title as the label, its url; an absent id or url renders
/// empty.
pub open spec fn node_line_spec(n: StubView) -> Seq<char> {
    "    \""@ + opt_text(n.id) + "\" [label=\""@ + escape_spec(n.title) + "\",URL=\""@ + opt_text(
        n.url,
    ) + "\"];"@
}

/// Renders one committed node, as [`node_line_spec`] says.
pub fn node_line(n: &ProtoPaper) -> (r: String)
    ensures
        r@ == node_line_spec(n@),
{
    let mut out = String::from_str("    \"");
    match &n.id {
        Some(id) => out.append(id.as_str()),
        None => {},
    }
    out.append("\" [label=\"");
    let title = escape(n.title.as_str());
    out.append(title.as_str());
    out.append("\",URL=\"");
    match &n.url {
        Some(url) => out.append(url.as_str()),
        None => {},
    }
    out.append("\"];");
    proof {
        assert(out@ =~= node_line_spec(n@));
    }
    out
}

} // verus!
