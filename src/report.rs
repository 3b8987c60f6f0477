use vstd::prelude::*;

use pad::PadStr;

verus! {

/// What `pad_to_width` makes of a text and a width in display columns.
pub uninterp spec fn padded_to(s: Seq<char>, width: nat) -> Seq<char>;

/// Relies on pad's `PadStr::pad_to_width`: the text, then spaces on the right up
/// to `width` display columns; a text already that wide comes back unchanged.
#[verifier::external_body]
fn pad_right(s: &str, width: usize) -> (r: String)
    ensures
        r@ == padded_to(s@, width as nat),
        r@.len() >= s@.len(),
        r@.subrange(0, s@.len() as int) == s@,
        forall|i: int| s@.len() <= i < r@.len() ==> r@[i] == ' ',
{
    s.pad_to_width(width)
}

/// Display width of the function name column.
pub const NAME_WIDTH: usize = 40;

/// Display width of each of the other columns.
pub const FIELD_WIDTH: usize = 20;

/// One row of the consolidated report, header or entry: four columns, each
/// padded on the right to its width, joined by single spaces.
pub fn report_row(name: &str, hits: &str, total: &str, avg: &str) -> (r: String)
    ensures
        r@ == padded_to(name@, NAME_WIDTH as nat) + seq![' '] + padded_to(hits@, FIELD_WIDTH as nat)
            + seq![' '] + padded_to(total@, FIELD_WIDTH as nat) + seq![' '] + padded_to(
            avg@,
            FIELD_WIDTH as nat,
        ),
{
    let mut out = pad_right(name, NAME_WIDTH);
    out.append(" ");
    let c = pad_right(hits, FIELD_WIDTH);
    out.append(c.as_str());
    out.append(" ");
    let c = pad_right(total, FIELD_WIDTH);
    out.append(c.as_str());
    out.append(" ");
    let c = pad_right(avg, FIELD_WIDTH);
    out.append(c.as_str());
    proof {
        reveal_strlit(" ");
    }
    assert(" "@ =~= seq![' ']);
    out
}

} // verus!
