use vstd::prelude::*;
use vstd::string::{StrSliceExecFns, StringExecFns};

verus! {

/// The capital letter for a digit 0..25 of a column label.
pub open spec fn letter(d: int) -> char {
    "ABCDEFGHIJKLMNOPQRSTUVWXYZ"@[d]
}

/// The label of the column with index `n` (from 0): A .. Z, then AA .. ZZ,
/// then AAA and on, as in bijective base 26.
pub open spec fn col_label(n: nat) -> Seq<char>
    decreases n,
{
    if n < 26 {
        seq![letter(n as int)]
    } else {
        col_label((n / 26 - 1) as nat).push(letter((n % 26) as int))
    }
}

/// Appends the label of column `n` to `out`.
fn append_label(n: u32, out: &mut String)
    ensures
        final(out)@ == old(out)@ + col_label(n as nat),
    decreases n,
{
    if n >= 26 {
        append_label(n / 26 - 1, out);
    }
    let letters = "ABCDEFGHIJKLMNOPQRSTUVWXYZ";
    proof {
        reveal_strlit("ABCDEFGHIJKLMNOPQRSTUVWXYZ");
    }
    let d = (n % 26) as usize;
    let one = letters.substring_ascii(d, d + 1);
    let ghost before = out@;
    out.append(one);
    proof {
        assert(one@ =~= seq![letter(d as int)]);
        if n >= 26 {
            assert(out@ =~= old(out)@ + col_label(n as nat));
        } else {
            assert(out@ =~= old(out)@ + col_label(n as nat));
        }
    }
}

/// The label of the column with index `col_index` (0 is "A", 26 is "AA").
pub fn generate_column_label(col_index: u32) -> (r: String)
    ensures
        r@ == col_label(col_index as nat),
{
    let mut label = String::new();
    append_label(col_index, &mut label);
    proof {
        assert(label@ =~= col_label(col_index as nat));
    }
    label
}

} // verus!
