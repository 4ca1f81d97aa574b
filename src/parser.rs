use vstd::prelude::*;
use vstd::string::{StrSliceExecFns, StringSliceAdditionalSpecFns};

verus! {

/// A parsed command.
///
/// `status` is 0 on success, else the parser's error code; `func` the command
/// or operator code; `target`, `arg1`, `arg2` either integers or cell ids
/// plus 1001 (`1000 * column + row + 1001`, so that "A1" is 1001);
/// `arg_type` has bit 1 set when `arg1` is a cell and bit 0 when `arg2` is.
#[derive(Default, Debug, Clone, Copy, PartialEq, Eq, Structural)]
pub struct Response {
    pub status: i32,
    pub func: i32,
    pub target: i32,
    pub arg1: i32,
    pub arg2: i32,
    pub arg_type: i32,
}

pub open spec fn is_digit(c: u8) -> bool {
    48 <= c <= 57
}

pub open spec fn is_upper(c: u8) -> bool {
    65 <= c <= 90
}

pub open spec fn all_digits(s: Seq<u8>) -> bool {
    forall|i: int| 0 <= i < s.len() ==> is_digit(#[trigger] s[i])
}

pub open spec fn all_upper(s: Seq<u8>) -> bool {
    forall|i: int| 0 <= i < s.len() ==> is_upper(#[trigger] s[i])
}

/// A row label: one to three digits, without a leading zero unless it is "0".
pub open spec fn row_ok(s: Seq<u8>) -> bool {
    1 <= s.len() <= 3 && !(s.len() > 1 && s[0] == 48) && all_digits(s)
}

/// A column label: one to three capital letters.
pub open spec fn col_ok(s: Seq<u8>) -> bool {
    1 <= s.len() <= 3 && all_upper(s)
}

/// The number written by decimal digits.
pub open spec fn digits_value(s: Seq<u8>) -> int
    decreases s.len(),
{
    if s.len() == 0 {
        0
    } else {
        10 * digits_value(s.drop_last()) + (s.last() - 48)
    }
}

/// The number of a column label: "A" is 1, "Z" 26, "AA" 27.
pub open spec fn col_number(s: Seq<u8>) -> int
    decreases s.len(),
{
    if s.len() == 0 {
        0
    } else {
        26 * col_number(s.drop_last()) + (s.last() - 64)
    }
}

/// Whether an integer flag is set.
pub fn ib(integer: i32) -> (r: bool)
    ensures
        r == (integer != 0),
{
    integer != 0
}

/// Whether `b[lo..hi]` is a row label.
fn row_at(b: &[u8], lo: usize, hi: usize) -> (r: bool)
    requires
        lo <= hi <= b@.len(),
    ensures
        r == row_ok(b@.subrange(lo as int, hi as int)),
{
    let ghost s = b@.subrange(lo as int, hi as int);
    let len = hi - lo;
    if len == 0 || len > 3 {
        return false;
    }
    if len > 1 && b[lo] == 48 {
        return false;
    }
    let mut i = lo;
    while i < hi
        invariant
            lo <= i <= hi <= b@.len(),
            s == b@.subrange(lo as int, hi as int),
            forall|k: int| 0 <= k < i - lo ==> is_digit(#[trigger] s[k]),
        decreases hi - i,
    {
        if !(b[i] >= 48 && b[i] <= 57) {
            assert(!is_digit(s[i - lo]));
            return false;
        }
        i = i + 1;
    }
    true
}

/// Whether `b[lo..hi]` is a column label.
fn col_at(b: &[u8], lo: usize, hi: usize) -> (r: bool)
    requires
        lo <= hi <= b@.len(),
    ensures
        r == col_ok(b@.subrange(lo as int, hi as int)),
{
    let ghost s = b@.subrange(lo as int, hi as int);
    let len = hi - lo;
    if len == 0 || len > 3 {
        return false;
    }
    let mut i = lo;
    while i < hi
        invariant
            lo <= i <= hi <= b@.len(),
            s == b@.subrange(lo as int, hi as int),
            forall|k: int| 0 <= k < i - lo ==> is_upper(#[trigger] s[k]),
        decreases hi - i,
    {
        if !(b[i] >= 65 && b[i] <= 90) {
            assert(!is_upper(s[i - lo]));
            return false;
        }
        i = i + 1;
    }
    true
}

/// The value of the digits `b[lo..hi]`, at most three of them.
fn digits_at(b: &[u8], lo: usize, hi: usize) -> (r: i32)
    requires
        lo <= hi <= b@.len(),
        hi - lo <= 3,
        all_digits(b@.subrange(lo as int, hi as int)),
    ensures
        r == digits_value(b@.subrange(lo as int, hi as int)),
        0 <= r < 1000,
{
    let mut acc: i32 = 0;
    let mut i = lo;
    while i < hi
        invariant
            lo <= i <= hi <= b@.len(),
            hi - lo <= 3,
            all_digits(b@.subrange(lo as int, hi as int)),
            acc == digits_value(b@.subrange(lo as int, i as int)),
            0 <= acc < [1int, 10, 100, 1000][(i - lo) as int],
        decreases hi - i,
    {
        proof {
            assert(b@.subrange(lo as int, i + 1).drop_last() =~= b@.subrange(lo as int, i as int));
            assert(is_digit(b@.subrange(lo as int, hi as int)[i - lo]));
        }
        acc = acc * 10 + (b[i] - 48) as i32;
        i = i + 1;
    }
    acc
}

/// The number of the column label `b[lo..hi]`, at most three letters.
fn col_number_at(b: &[u8], lo: usize, hi: usize) -> (r: i32)
    requires
        lo <= hi <= b@.len(),
        hi - lo <= 3,
        all_upper(b@.subrange(lo as int, hi as int)),
    ensures
        r == col_number(b@.subrange(lo as int, hi as int)),
        0 <= r <= 18278,
        hi > lo ==> r > 0,
{
    let mut acc: i32 = 0;
    let mut i = lo;
    while i < hi
        invariant
            lo <= i <= hi <= b@.len(),
            hi - lo <= 3,
            all_upper(b@.subrange(lo as int, hi as int)),
            acc == col_number(b@.subrange(lo as int, i as int)),
            0 <= acc <= [0int, 26, 702, 18278][(i - lo) as int],
            i > lo ==> acc > 0,
        decreases hi - i,
    {
        proof {
            assert(b@.subrange(lo as int, i + 1).drop_last() =~= b@.subrange(lo as int, i as int));
            assert(is_upper(b@.subrange(lo as int, hi as int)[i - lo]));
        }
        acc = acc * 26 + (b[i] - 64) as i32;
        i = i + 1;
    }
    acc
}

/// An integer literal: an optional sign, then "0" or digits without a
/// leading zero.
pub open spec fn integer_ok(s: Seq<u8>) -> bool {
    if s.len() == 0 {
        false
    } else if s[0] == 45 || s[0] == 43 {
        if s.len() == 1 {
            false
        } else if s.len() == 2 && s[1] == 48 {
            true
        } else if s[1] == 48 {
            false
        } else {
            all_digits(s.drop_first())
        }
    } else if s.len() == 1 && s[0] == 48 {
        true
    } else if s[0] == 48 {
        false
    } else {
        all_digits(s)
    }
}

/// What `str::parse::<i32>` reads: an optional sign, then one or more digits.
pub open spec fn int_syntax(s: Seq<u8>) -> bool {
    if s.len() == 0 {
        false
    } else if s[0] == 45 || s[0] == 43 {
        s.len() >= 2 && all_digits(s.drop_first())
    } else {
        all_digits(s)
    }
}

proof fn lemma_integer_ok_syntax(s: Seq<u8>)
    requires
        integer_ok(s),
    ensures
        int_syntax(s),
{
    if s[0] == 45 || s[0] == 43 {
        if s.len() == 2 && s[1] == 48 {
            assert(all_digits(s.drop_first()));
        }
    }
}

/// The value of an integer literal, or 0 when it does not fit in an `i32`
/// (what `str::parse::<i32>().unwrap_or(0)` gives).
pub open spec fn parsed_int(s: Seq<u8>) -> i32 {
    let v = if s[0] == 45 {
        -digits_value(s.drop_first())
    } else if s[0] == 43 {
        digits_value(s.drop_first())
    } else {
        digits_value(s)
    };
    if i32::MIN <= v <= i32::MAX {
        v as i32
    } else {
        0
    }
}

proof fn lemma_digits_grow(s: Seq<u8>)
    requires
        all_digits(s),
    ensures
        digits_value(s) >= 0,
        s.len() > 0 ==> digits_value(s) >= digits_value(s.drop_last()),
    decreases s.len(),
{
    if s.len() > 0 {
        assert(all_digits(s.drop_last()));
        lemma_digits_grow(s.drop_last());
        assert(is_digit(s[s.len() - 1]));
    }
}

/// Whether `b[lo..hi]` is an integer literal.
fn integer_at(b: &[u8], lo: usize, hi: usize) -> (r: bool)
    requires
        lo <= hi <= b@.len(),
    ensures
        r == integer_ok(b@.subrange(lo as int, hi as int)),
{
    let ghost s = b@.subrange(lo as int, hi as int);
    let len = hi - lo;
    if len == 0 {
        return false;
    }
    let start = if b[lo] == 45 || b[lo] == 43 {
        if len == 1 {
            return false;
        }
        if len == 2 && b[lo + 1] == 48 {
            return true;
        }
        if b[lo + 1] == 48 {
            return false;
        }
        lo + 1
    } else {
        if len == 1 && b[lo] == 48 {
            return true;
        }
        if b[lo] == 48 {
            return false;
        }
        lo
    };
    let ghost t = b@.subrange(start as int, hi as int);
    proof {
        if start == lo + 1 {
            assert(t =~= s.drop_first());
        } else {
            assert(t =~= s);
        }
    }
    let mut i = start;
    while i < hi
        invariant
            start <= i <= hi <= b@.len(),
            start == lo || start == lo + 1,
            lo < hi,
            s == b@.subrange(lo as int, hi as int),
            start == lo + 1 ==> t == s.drop_first() && (s[0] == 45 || s[0] == 43) && s.len() >= 2
                && s[1] != 48,
            start == lo ==> t == s && s[0] != 45 && s[0] != 43 && s[0] != 48,
            t == b@.subrange(start as int, hi as int),
            forall|k: int| 0 <= k < i - start ==> is_digit(#[trigger] t[k]),
        decreases hi - i,
    {
        if !(b[i] >= 48 && b[i] <= 57) {
            assert(!is_digit(t[i - start]));
            assert(!all_digits(t));
            if start == lo {
                assert(integer_ok(s) == all_digits(s));
            } else {
                assert(integer_ok(s) == all_digits(s.drop_first()));
            }
            return false;
        }
        i = i + 1;
    }
    true
}

/// The value of the integer literal `b[lo..hi]`; see `parsed_int`.
fn int_at(b: &[u8], lo: usize, hi: usize) -> (r: i32)
    requires
        lo <= hi <= b@.len(),
        int_syntax(b@.subrange(lo as int, hi as int)),
    ensures
        r == parsed_int(b@.subrange(lo as int, hi as int)),
{
    let ghost s = b@.subrange(lo as int, hi as int);
    let neg = b[lo] == 45;
    let start = if b[lo] == 45 || b[lo] == 43 {
        lo + 1
    } else {
        lo
    };
    let ghost t = b@.subrange(start as int, hi as int);
    proof {
        if start == lo + 1 {
            assert(t =~= s.drop_first());
        } else {
            assert(t =~= s);
        }
    }
    let mut acc: i64 = 0;
    let mut big = false;
    let mut i = start;
    while i < hi
        invariant
            start <= i <= hi <= b@.len(),
            t == b@.subrange(start as int, hi as int),
            all_digits(t),
            !big ==> acc == digits_value(b@.subrange(start as int, i as int)),
            !big ==> 0 <= acc <= 0x8000_0000,
            big ==> digits_value(b@.subrange(start as int, i as int)) > 0x8000_0000,
        decreases hi - i,
    {
        let ghost u = b@.subrange(start as int, i + 1);
        proof {
            assert(u.drop_last() =~= b@.subrange(start as int, i as int));
            assert(is_digit(t[i - start]));
            assert(all_digits(u));
            lemma_digits_grow(u);
        }
        if !big {
            acc = acc * 10 + (b[i] - 48) as i64;
            if acc > 0x8000_0000 {
                big = true;
            }
        }
        i = i + 1;
    }
    proof {
        assert(b@.subrange(start as int, hi as int) == t);
    }
    if big {
        return 0;
    }
    let v: i64 = if neg {
        -acc
    } else {
        acc
    };
    if v < -0x8000_0000 || v > 0x7fff_ffff {
        0
    } else {
        v as i32
    }
}

/// The index of the first digit of `s` at or after `i`, or its length.
pub open spec fn first_digit_from(s: Seq<u8>, i: int) -> int
    decreases s.len() - i,
{
    if i >= s.len() || i < 0 {
        s.len() as int
    } else if is_digit(s[i]) {
        i
    } else {
        first_digit_from(s, i + 1)
    }
}

/// A cell label: a column label then a row label, two to six bytes.
pub open spec fn cell_ok(s: Seq<u8>) -> bool {
    let k = first_digit_from(s, 0);
    &&& 2 <= s.len() <= 6
    &&& 0 < k < s.len()
    &&& col_ok(s.subrange(0, k))
    &&& row_ok(s.subrange(k, s.len() as int))
}

/// The code of a cell label, `1000 * column + row` with both counted from
/// one ("A1" is 1001), or 0 when it is no label of a cell.
pub open spec fn cell_value(s: Seq<u8>) -> int {
    let k = first_digit_from(s, 0);
    if cell_ok(s) && digits_value(s.subrange(k, s.len() as int)) > 0 {
        1000 * col_number(s.subrange(0, k)) + digits_value(s.subrange(k, s.len() as int))
    } else {
        0
    }
}

/// The first digit of `b[lo..hi]`, as an index into `b` (`hi` if none).
fn first_digit_at(b: &[u8], lo: usize, hi: usize) -> (r: usize)
    requires
        lo <= hi <= b@.len(),
    ensures
        lo <= r <= hi,
        r - lo == first_digit_from(b@.subrange(lo as int, hi as int), 0),
{
    let ghost s = b@.subrange(lo as int, hi as int);
    let mut i = lo;
    while i < hi
        invariant
            lo <= i <= hi <= b@.len(),
            s == b@.subrange(lo as int, hi as int),
            first_digit_from(s, 0) == first_digit_from(s, i - lo),
        decreases hi - i,
    {
        if b[i] >= 48 && b[i] <= 57 {
            return i;
        }
        i = i + 1;
    }
    i
}

/// The code of the cell label `b[lo..hi]`; see `cell_value`.
fn cell_at(b: &[u8], lo: usize, hi: usize) -> (r: i32)
    requires
        lo <= hi <= b@.len(),
    ensures
        r == cell_value(b@.subrange(lo as int, hi as int)),
        0 <= r <= 18_278_999,
{
    let ghost s = b@.subrange(lo as int, hi as int);
    let len = hi - lo;
    if len < 2 || len > 6 {
        return 0;
    }
    let idx = first_digit_at(b, lo, hi);
    if idx > lo && idx < hi {
        proof {
            assert(s.subrange(0, idx - lo) =~= b@.subrange(lo as int, idx as int));
            assert(s.subrange(idx - lo, s.len() as int) =~= b@.subrange(idx as int, hi as int));
        }
        if col_at(b, lo, idx) && row_at(b, idx, hi) {
            let col = col_number_at(b, lo, idx);
            let row = digits_at(b, idx, hi);
            if row > 0 {
                return 1000 * col + row;
            }
        }
    }
    0
}

/// Whether `s` is a row label ("1" and "891" are, "5735" and "01" are not).
pub fn valid_row(s: &str) -> (r: bool)
    ensures
        r == row_ok(s.spec_bytes()),
{
    let b = s.as_bytes();
    proof {
        assert(b@.subrange(0, b@.len() as int) =~= b@);
    }
    row_at(b, 0, b.len())
}

/// The number of a row label, 0 when `s` is none.
pub fn valid_row2(s: &str) -> (r: i32)
    ensures
        r == (if row_ok(s.spec_bytes()) {
            digits_value(s.spec_bytes())
        } else {
            0
        }),
{
    let b = s.as_bytes();
    proof {
        assert(b@.subrange(0, b@.len() as int) =~= b@);
    }
    if row_at(b, 0, b.len()) {
        digits_at(b, 0, b.len())
    } else {
        0
    }
}

/// Whether `s` is a column label ("A" and "JFV" are, "ABCF" is not).
pub fn valid_column(s: &str) -> (r: bool)
    ensures
        r == col_ok(s.spec_bytes()),
{
    let b = s.as_bytes();
    proof {
        assert(b@.subrange(0, b@.len() as int) =~= b@);
    }
    col_at(b, 0, b.len())
}

/// The number of a column label ("A" is 1, "AC" 29), 0 when `s` is none.
pub fn valid_column2(s: &str) -> (r: i32)
    ensures
        r == (if col_ok(s.spec_bytes()) {
            col_number(s.spec_bytes())
        } else {
            0
        }),
{
    let b = s.as_bytes();
    proof {
        assert(b@.subrange(0, b@.len() as int) =~= b@);
    }
    if col_at(b, 0, b.len()) {
        col_number_at(b, 0, b.len())
    } else {
        0
    }
}

/// Whether `s` is an integer literal ("-12374" and "+1263" are, "-0027" is not).
pub fn valid_integer(s: &str) -> (r: bool)
    ensures
        r == integer_ok(s.spec_bytes()),
{
    let b = s.as_bytes();
    proof {
        assert(b@.subrange(0, b@.len() as int) =~= b@);
    }
    integer_at(b, 0, b.len())
}

/// The code of a cell label ("A1" is 1001, "AC12" is 29012), 0 when `s` is none.
pub fn valid_cell3(s: &str) -> (r: i32)
    ensures
        r == cell_value(s.spec_bytes()),
{
    let b = s.as_bytes();
    proof {
        assert(b@.subrange(0, b@.len() as int) =~= b@);
    }
    cell_at(b, 0, b.len())
}

/// What `str::parse::<i32>().unwrap_or(0)` gives for the bytes `s`.
pub open spec fn int_or_zero(s: Seq<u8>) -> i32 {
    if int_syntax(s) {
        parsed_int(s)
    } else {
        0
    }
}

/// Whether `b` is in `str::parse::<i32>` syntax.
fn int_syntax_at(b: &[u8]) -> (r: bool)
    ensures
        r == int_syntax(b@),
{
    let len = b.len();
    if len == 0 {
        return false;
    }
    let start: usize = if b[0] == 45 || b[0] == 43 {
        if len == 1 {
            return false;
        }
        1
    } else {
        0
    };
    let ghost t = b@.subrange(start as int, len as int);
    proof {
        if start == 1 {
            assert(t =~= b@.drop_first());
        } else {
            assert(t =~= b@);
        }
    }
    let mut i = start;
    while i < len
        invariant
            start <= i <= len == b@.len(),
            start == 0 || start == 1,
            len > 0,
            start == 1 ==> t == b@.drop_first() && (b@[0] == 45 || b@[0] == 43) && len >= 2,
            start == 0 ==> t == b@ && b@[0] != 45 && b@[0] != 43,
            t == b@.subrange(start as int, len as int),
            forall|k: int| 0 <= k < i - start ==> is_digit(#[trigger] t[k]),
        decreases len - i,
    {
        if !(b[i] >= 48 && b[i] <= 57) {
            assert(!is_digit(t[i - start]));
            assert(!all_digits(t));
            return false;
        }
        i = i + 1;
    }
    true
}

/// `str::parse::<i32>().unwrap_or(0)` on the bytes `b`.
fn int_or_zero_at(b: &[u8]) -> (r: i32)
    ensures
        r == int_or_zero(b@),
{
    proof {
        assert(b@.subrange(0, b@.len() as int) =~= b@);
    }
    if int_syntax_at(b) {
        int_at(b, 0, b.len())
    } else {
        0
    }
}

/// Byte-wise lexicographic `a >= b`, the order of `str`.
pub open spec fn bytes_ge(a: Seq<u8>, b: Seq<u8>) -> bool
    decreases a.len(),
{
    if a.len() == 0 || b.len() == 0 {
        a.len() >= b.len()
    } else if a[0] != b[0] {
        a[0] > b[0]
    } else {
        bytes_ge(a.drop_first(), b.drop_first())
    }
}

fn bytes_ge_at(a: &[u8], b: &[u8]) -> (r: bool)
    ensures
        r == bytes_ge(a@, b@),
{
    let mut i: usize = 0;
    proof {
        assert(a@.subrange(0, a@.len() as int) =~= a@);
        assert(b@.subrange(0, b@.len() as int) =~= b@);
    }
    while i < a.len() && i < b.len()
        invariant
            i <= a@.len(),
            i <= b@.len(),
            bytes_ge(a@, b@) == bytes_ge(a@.subrange(i as int, a@.len() as int), b@.subrange(i as int, b@.len() as int)),
        decreases a@.len() - i,
    {
        let ghost x = a@.subrange(i as int, a@.len() as int);
        let ghost y = b@.subrange(i as int, b@.len() as int);
        if a[i] != b[i] {
            proof {
                assert(x[0] == a@[i as int] && y[0] == b@[i as int]);
            }
            return a[i] > b[i];
        }
        proof {
            assert(x.drop_first() =~= a@.subrange(i + 1, a@.len() as int));
            assert(y.drop_first() =~= b@.subrange(i + 1, b@.len() as int));
        }
        i = i + 1;
    }
    proof {
        let x = a@.subrange(i as int, a@.len() as int);
        let y = b@.subrange(i as int, b@.len() as int);
        assert(x.len() == 0 || y.len() == 0);
    }
    a.len() - i >= b.len() - i
}

/// Whether a range from cell (column `r1`, row `r2`) to cell (column `s1`,
/// row `s2`) goes right and down: the second column is not before the first
/// (a longer label, or one as long and not smaller), and the second row
/// number is not smaller.
pub open spec fn comp_ok(r1: Seq<u8>, r2: Seq<u8>, s1: Seq<u8>, s2: Seq<u8>) -> bool {
    if r1.len() > s1.len() {
        false
    } else if r1.len() == s1.len() {
        bytes_ge(s1, r1) && int_or_zero(s2) >= int_or_zero(r2)
    } else {
        int_or_zero(s2) >= int_or_zero(r2)
    }
}

fn comp_at(r1: &[u8], r2: &[u8], s1: &[u8], s2: &[u8]) -> (r: bool)
    ensures
        r == comp_ok(r1@, r2@, s1@, s2@),
{
    if r1.len() > s1.len() {
        false
    } else if r1.len() == s1.len() {
        bytes_ge_at(s1, r1) && int_or_zero_at(s2) >= int_or_zero_at(r2)
    } else {
        int_or_zero_at(s2) >= int_or_zero_at(r2)
    }
}

/// Whether the range from cell `r1 r2` to cell `s1 s2` (column and row
/// labels) goes right and down.
pub fn valid_comp(r1: &str, r2: &str, s1: &str, s2: &str) -> (r: bool)
    ensures
        r == comp_ok(r1.spec_bytes(), r2.spec_bytes(), s1.spec_bytes(), s2.spec_bytes()),
{
    comp_at(r1.as_bytes(), r2.as_bytes(), s1.as_bytes(), s2.as_bytes())
}

/// The code of a function name: MIN 1, MAX 2, AVG 3, SUM 4, STDEV 5, SLEEP 6;
/// 0 for any other text.
pub open spec fn function_code(s: Seq<u8>) -> i32 {
    if s == seq![77u8, 73, 78] {
        1
    } else if s == seq![77u8, 65, 88] {
        2
    } else if s == seq![65u8, 86, 71] {
        3
    } else if s == seq![83u8, 85, 77] {
        4
    } else if s == seq![83u8, 84, 68, 69, 86] {
        5
    } else if s == seq![83u8, 76, 69, 69, 80] {
        6
    } else {
        0
    }
}

fn function_at(b: &[u8]) -> (r: i32)
    ensures
        r == function_code(b@),
{
    if b.len() == 3 {
        if b[0] == 77 && b[1] == 73 && b[2] == 78 {
            assert(b@ =~= seq![77u8, 73, 78]);
            return 1;
        }
        if b[0] == 77 && b[1] == 65 && b[2] == 88 {
            assert(b@ =~= seq![77u8, 65, 88]);
            return 2;
        }
        if b[0] == 65 && b[1] == 86 && b[2] == 71 {
            assert(b@ =~= seq![65u8, 86, 71]);
            return 3;
        }
        if b[0] == 83 && b[1] == 85 && b[2] == 77 {
            assert(b@ =~= seq![83u8, 85, 77]);
            return 4;
        }
        assert(b@ != seq![77u8, 73, 78] && b@ != seq![77u8, 65, 88] && b@ != seq![65u8, 86, 71]
            && b@ != seq![83u8, 85, 77]) by {
            if b@ == seq![77u8, 73, 78] { assert(b@[0] == 77 && b@[1] == 73 && b@[2] == 78); }
            if b@ == seq![77u8, 65, 88] { assert(b@[0] == 77 && b@[1] == 65 && b@[2] == 88); }
            if b@ == seq![65u8, 86, 71] { assert(b@[0] == 65 && b@[1] == 86 && b@[2] == 71); }
            if b@ == seq![83u8, 85, 77] { assert(b@[0] == 83 && b@[1] == 85 && b@[2] == 77); }
        }
        assert(b@.len() != seq![83u8, 84, 68, 69, 86].len());
        assert(b@.len() != seq![83u8, 76, 69, 69, 80].len());
        return 0;
    }
    if b.len() == 5 {
        if b[0] == 83 && b[1] == 84 && b[2] == 68 && b[3] == 69 && b[4] == 86 {
            assert(b@ =~= seq![83u8, 84, 68, 69, 86]);
            return 5;
        }
        if b[0] == 83 && b[1] == 76 && b[2] == 69 && b[3] == 69 && b[4] == 80 {
            assert(b@ =~= seq![83u8, 76, 69, 69, 80]);
            return 6;
        }
        assert(b@ != seq![83u8, 84, 68, 69, 86] && b@ != seq![83u8, 76, 69, 69, 80]) by {
            if b@ == seq![83u8, 84, 68, 69, 86] { assert(b@[0] == 83 && b@[1] == 84 && b@[2] == 68 && b@[3] == 69 && b@[4] == 86); }
            if b@ == seq![83u8, 76, 69, 69, 80] { assert(b@[0] == 83 && b@[1] == 76 && b@[2] == 69 && b@[3] == 69 && b@[4] == 80); }
        }
    }
    assert(b@.len() != 3 ==> b@ != seq![77u8, 73, 78] && b@ != seq![77u8, 65, 88] && b@ != seq![65u8, 86, 71] && b@ != seq![83u8, 85, 77]);
    assert(b@.len() != 5 ==> b@ != seq![83u8, 84, 68, 69, 86] && b@ != seq![83u8, 76, 69, 69, 80]);
    0
}

/// The code of a function name ("MIN" is 1, "AVG" 3), 0 for any other text.
pub fn valid_function(s: &str) -> (r: i32)
    ensures
        r == function_code(s.spec_bytes()),
{
    function_at(s.as_bytes())
}

/// The code of an arithmetic operator: + 3, - 4, * 5, / 6; 0 otherwise.
pub fn ret_values(c: char) -> (r: i32)
    ensures
        r == (if c == '+' {
            3i32
        } else if c == '-' {
            4
        } else if c == '*' {
            5
        } else if c == '/' {
            6
        } else {
            0
        }),
{
    match c {
        '+' => 3,
        '-' => 4,
        '*' => 5,
        '/' => 6,
        _ => 0,
    }
}

/// The index of the first byte `c` of `s` at or after `i`, or its length.
pub open spec fn find_byte_from(s: Seq<u8>, c: u8, i: int) -> int
    decreases s.len() - i,
{
    if i >= s.len() || i < 0 {
        s.len() as int
    } else if s[i] == c {
        i
    } else {
        find_byte_from(s, c, i + 1)
    }
}

/// An operator byte: `*`, `-`, `+`, `/`, and `(` too when `paren` holds.
pub open spec fn is_op(c: u8, paren: bool) -> bool {
    c == 42 || c == 45 || c == 43 || c == 47 || (paren && c == 40)
}

/// The index of the first operator byte of `s` at or after `i`, or its length.
pub open spec fn find_op_from(s: Seq<u8>, i: int, paren: bool) -> int
    decreases s.len() - i,
{
    if i >= s.len() || i < 0 {
        s.len() as int
    } else if is_op(s[i], paren) {
        i
    } else {
        find_op_from(s, i + 1, paren)
    }
}

fn find_byte_at(b: &[u8], c: u8, from: usize) -> (r: usize)
    requires
        from <= b@.len(),
    ensures
        from <= r <= b@.len(),
        r == find_byte_from(b@, c, from as int),
{
    let mut i = from;
    while i < b.len()
        invariant
            from <= i <= b@.len(),
            find_byte_from(b@, c, from as int) == find_byte_from(b@, c, i as int),
        decreases b@.len() - i,
    {
        if b[i] == c {
            return i;
        }
        i = i + 1;
    }
    i
}

fn find_op_at(b: &[u8], from: usize, paren: bool) -> (r: usize)
    requires
        from <= b@.len(),
    ensures
        from <= r <= b@.len(),
        r == find_op_from(b@, from as int, paren),
{
    let mut i = from;
    while i < b.len()
        invariant
            from <= i <= b@.len(),
            find_op_from(b@, from as int, paren) == find_op_from(b@, i as int, paren),
        decreases b@.len() - i,
    {
        let c = b[i];
        if c == 42 || c == 45 || c == 43 || c == 47 || (paren && c == 40) {
            return i;
        }
        i = i + 1;
    }
    i
}

/// Whether `s` is a cell label, with its column and row labels when `s`
/// is ASCII text (as every cell label is).
pub fn valid_cell(s: &str) -> (r: (bool, Option<(String, String)>))
    ensures
        r.0 == cell_ok(s.spec_bytes()),
        !r.0 ==> r.1 is None,
        r.1 is Some ==> ({
            let k = first_digit_from(s.spec_bytes(), 0);
            &&& r.1->Some_0.0@ == s@.subrange(0, k)
            &&& r.1->Some_0.1@ == s@.subrange(k, s@.len() as int)
        }),
{
    let b = s.as_bytes();
    let len = b.len();
    if len < 2 || len > 6 {
        return (false, None);
    }
    let idx = first_digit_at(b, 0, len);
    proof {
        assert(b@.subrange(0, len as int) =~= b@);
    }
    if idx > 0 && idx < len && col_at(b, 0, idx) && row_at(b, idx, len) {
        if s.is_ascii() {
            proof {
                broadcast use vstd::string::is_ascii_spec_bytes;
                assert(s@.len() == b@.len());
            }
            let col = s.substring_ascii(0, idx).to_owned();
            let row = s.substring_ascii(idx, len).to_owned();
            return (true, Some((col, row)));
        }
        return (true, None);
    }
    (false, None)
}

/// The code of a range text `CELL1:CELL2`: 1 for two cell labels that go
/// right and down, 2 for two cell labels that do not, 0 otherwise.
pub open spec fn range_code(s: Seq<u8>) -> i32 {
    let len = s.len() as int;
    let idx = find_byte_from(s, 58, 0);
    if len <= 4 || idx == len || idx > 6 || idx < 2 {
        0
    } else {
        let a = s.subrange(0, idx);
        let b = s.subrange(idx + 1, len);
        if !cell_ok(a) || !(0 < len - idx - 1 < 7) || !cell_ok(b) {
            0
        } else {
            let ka = first_digit_from(a, 0);
            let kb = first_digit_from(b, 0);
            if comp_ok(
                a.subrange(0, ka),
                a.subrange(ka, a.len() as int),
                b.subrange(0, kb),
                b.subrange(kb, b.len() as int),
            ) {
                1
            } else {
                2
            }
        }
    }
}

/// Whether `b[lo..hi]` is a cell label, with the index of its first digit.
fn cell_ok_at(b: &[u8], lo: usize, hi: usize) -> (r: (bool, usize))
    requires
        lo <= hi <= b@.len(),
    ensures
        r.0 == cell_ok(b@.subrange(lo as int, hi as int)),
        lo <= r.1 <= hi,
        r.1 - lo == first_digit_from(b@.subrange(lo as int, hi as int), 0),
{
    let ghost s = b@.subrange(lo as int, hi as int);
    let idx = first_digit_at(b, lo, hi);
    let len = hi - lo;
    if len < 2 || len > 6 {
        return (false, idx);
    }
    if idx > lo && idx < hi {
        proof {
            assert(s.subrange(0, idx - lo) =~= b@.subrange(lo as int, idx as int));
            assert(s.subrange(idx - lo, s.len() as int) =~= b@.subrange(idx as int, hi as int));
        }
        let ok = col_at(b, lo, idx) && row_at(b, idx, hi);
        return (ok, idx);
    }
    (false, idx)
}

/// The code of the range text `s` (see `range_code`) and the index of its colon.
pub fn valid_range(s: &[u8]) -> (r: (i32, usize))
    ensures
        r.0 == range_code(s@),
        r.0 != 0 ==> r.1 == find_byte_from(s@, 58, 0) && r.1 < s@.len(),
{
    let length = s.len();
    if length <= 4 {
        return (0, 0);
    }
    let idx = find_byte_at(s, 58, 0);
    if idx == length || idx > 6 || idx < 2 {
        return (0, idx);
    }
    let (ok1, k1) = cell_ok_at(s, 0, idx);
    if !ok1 {
        return (0, idx);
    }
    let rest = length - idx - 1;
    if !(rest > 0 && rest < 7) {
        return (0, idx);
    }
    let (ok2, k2) = cell_ok_at(s, idx + 1, length);
    if !ok2 {
        return (0, idx);
    }
    let ghost a = s@.subrange(0, idx as int);
    let ghost bb = s@.subrange(idx + 1, length as int);
    proof {
        assert(a.subrange(0, k1 as int) =~= s@.subrange(0, k1 as int));
        assert(a.subrange(k1 as int, a.len() as int) =~= s@.subrange(k1 as int, idx as int));
        assert(bb.subrange(0, k2 - idx - 1) =~= s@.subrange(idx + 1, k2 as int));
        assert(bb.subrange(k2 - idx - 1, bb.len() as int) =~= s@.subrange(k2 as int, length as int));
    }
    if comp_at(&s[0..k1], &s[k1..idx], &s[idx + 1..k2], &s[k2..length]) {
        (1, idx)
    } else {
        (2, idx)
    }
}

/// The code of an arithmetic text `VALUE OP VALUE`, where a value is a cell
/// label or an integer literal: 1 + 2 (first value a cell) + 1 (second value
/// a cell), or 0 when `s` is no such text. A sign in front of the first
/// value does not count as the operator.
pub open spec fn post_expr_code(s: Seq<u8>) -> i32 {
    let len = s.len() as int;
    let start = if len > 0 && (s[0] == 45 || s[0] == 43) {
        1int
    } else {
        0int
    };
    let idx = find_op_from(s, start, false);
    if len <= 2 || idx >= len - 1 || idx < 1 {
        0
    } else {
        let a = s.subrange(0, idx);
        let b = s.subrange(idx + 1, len);
        let ca = cell_value(a) != 0;
        let cb = cell_value(b) != 0;
        if (ca || integer_ok(a)) && (cb || integer_ok(b)) {
            (1 + (if ca {
                2int
            } else {
                0int
            }) + (if cb {
                1int
            } else {
                0int
            })) as i32
        } else {
            0
        }
    }
}

/// The code of the arithmetic text `s` (see `post_expr_code`) and the index
/// of its operator.
pub fn valid_post_expr(s: &[u8]) -> (r: (i32, usize))
    ensures
        r.0 == post_expr_code(s@),
        r.0 != 0 ==> ({
            let start = if s@[0] == 45 || s@[0] == 43 {
                1int
            } else {
                0int
            };
            &&& r.1 == find_op_from(s@, start, false)
            &&& 1 <= r.1 < s@.len() - 1
        }),
{
    let length = s.len();
    if length <= 2 {
        return (0, 0);
    }
    let start: usize = if s[0] == 45 || s[0] == 43 {
        1
    } else {
        0
    };
    let idx = find_op_at(s, start, false);
    if idx >= length - 1 || idx < 1 {
        return (0, idx);
    }
    let a = cell_at(s, 0, idx);
    let b = integer_at(s, 0, idx);
    let c = cell_at(s, idx + 1, length);
    let d = integer_at(s, idx + 1, length);
    if (a != 0 || b) && (c != 0 || d) {
        let mut sum: i32 = 1;
        if a != 0 {
            sum = sum + 2;
        }
        if c != 0 {
            sum = sum + 1;
        }
        (sum, idx)
    } else {
        (0, idx)
    }
}

/// The code of a function call text `NAME(ARGS)`: for SLEEP over an integer
/// literal or a cell label, 12; for an aggregate over a range going right and
/// down, 6 plus the function's code; 1 for an aggregate over two cells that
/// go the other way; 0 otherwise.
pub open spec fn func_code(s: Seq<u8>) -> i32 {
    let len = s.len() as int;
    let count = find_byte_from(s, 40, 0);
    if len < 4 || count == len || s[len - 1] != 41 || len - count <= 2 {
        0
    } else {
        let f = function_code(s.subrange(0, count));
        let inner = s.subrange(count + 1, len - 1);
        if f == 0 {
            0
        } else if f == 6 {
            if integer_ok(inner) || cell_value(inner) != 0 {
                12
            } else {
                0
            }
        } else {
            let ans = range_code(inner);
            if ans == 1 {
                (f + 6) as i32
            } else if ans == 2 {
                1
            } else {
                0
            }
        }
    }
}

/// The code of the function call text `s` (see `func_code`) and the index of
/// its opening parenthesis.
pub fn parse_func(s: &[u8]) -> (r: (i32, usize))
    ensures
        r.0 == func_code(s@),
        r.0 != 0 ==> r.1 == find_byte_from(s@, 40, 0) && r.1 + 2 < s@.len() && s@[s@.len() - 1]
            == 41,
{
    let length = s.len();
    if length < 4 {
        return (0, 0);
    }
    let count = find_byte_at(s, 40, 0);
    if count == length || s[length - 1] != 41 {
        return (0, count);
    }
    if length - count <= 2 {
        return (0, count);
    }
    let func = function_at(&s[0..count]);
    if func == 0 {
        return (0, count);
    }
    if func == 6 {
        if integer_at(s, count + 1, length - 1) || cell_at(s, count + 1, length - 1) != 0 {
            return (12, count);
        }
        return (0, count);
    }
    let (ans, _) = valid_range(&s[count + 1..length - 1]);
    if ans == 1 {
        (func + 6, count)
    } else if ans == 2 {
        (1, count)
    } else {
        (0, count)
    }
}

pub open spec fn resp(status: i32, func: i32, target: i32, arg1: i32, arg2: i32, arg_type: i32) -> Response {
    Response { status, func, target, arg1, arg2, arg_type }
}

pub open spec fn disable_text() -> Seq<u8> {
    seq![100u8, 105, 115, 97, 98, 108, 101, 95, 111, 117, 116, 112, 117, 116]
}

pub open spec fn enable_text() -> Seq<u8> {
    seq![101u8, 110, 97, 98, 108, 101, 95, 111, 117, 116, 112, 117, 116]
}

pub open spec fn scroll_text() -> Seq<u8> {
    seq![115u8, 99, 114, 111, 108, 108, 95, 116, 111, 32]
}

/// The code of an arithmetic operator byte: `+` 3, `-` 4, `*` 5, `/` 6.
pub open spec fn op_code(c: u8) -> i32 {
    if c == 43 {
        3
    } else if c == 45 {
        4
    } else if c == 42 {
        5
    } else {
        6
    }
}

/// The command written by `b`: a one-letter move (w, d, a, s) or quit (q),
/// `disable_output`, `enable_output`, `scroll_to CELL`, or an assignment
/// `CELL=...`; see `assignment_spec`.
pub open spec fn parse_spec(b: Seq<u8>) -> Response {
    let len = b.len() as int;
    if len == 0 {
        resp(2, 0, 0, 0, 0, 0)
    } else if len == 1 && b[0] == 119 {
        resp(0, 13, 0, 0, 0, 0)
    } else if len == 1 && b[0] == 100 {
        resp(0, 14, 0, 0, 0, 0)
    } else if len == 1 && b[0] == 97 {
        resp(0, 15, 0, 0, 0, 0)
    } else if len == 1 && b[0] == 115 {
        resp(0, 16, 0, 0, 0, 0)
    } else if len == 1 && b[0] == 113 {
        resp(0, 17, 0, 0, 0, 0)
    } else if b == disable_text() {
        resp(0, 18, 0, 0, 0, 0)
    } else if b == enable_text() {
        resp(0, 19, 0, 0, 0, 0)
    } else if len > 10 && b.subrange(0, 10) == scroll_text() && cell_value(b.subrange(10, len))
        != 0 {
        resp(0, 20, cell_value(b.subrange(10, len)) as i32, 0, 0, 0)
    } else {
        assignment_spec(b)
    }
}

/// An assignment `CELL=RHS`, where the right-hand side is an integer literal
/// (code 1), a cell label (2), `VALUE OP VALUE` (3 to 6 for + - * /),
/// `AGG(CELL:CELL)` (7 MIN, 8 MAX, 9 AVG, 10 SUM, 11 STDEV) or `SLEEP(VALUE)`
/// (12). Status 1 for text that is none of these, 2 for a range that does
/// not go right and down.
pub open spec fn assignment_spec(b: Seq<u8>) -> Response {
    let len = b.len() as int;
    let idx = find_byte_from(b, 61, 0);
    if idx > 6 || idx == len || idx < 2 || cell_value(b.subrange(0, idx)) == 0 {
        resp(1, 0, 0, 0, 0, 0)
    } else {
        let t = cell_value(b.subrange(0, idx)) as i32;
        let rem = b.subrange(idx + 1, len);
        let start = if rem.len() > 0 && (rem[0] == 45 || rem[0] == 43) {
            1int
        } else {
            0int
        };
        let count = find_op_from(rem, start, true);
        if count >= rem.len() {
            plain_spec(rem, t)
        } else if rem[count] == 40 {
            call_spec(rem, t)
        } else {
            arith_spec(rem, t, count)
        }
    }
}

/// A right-hand side without operator: an integer literal or a cell label.
pub open spec fn plain_spec(rem: Seq<u8>, t: i32) -> Response {
    if integer_ok(rem) {
        resp(0, 1, t, parsed_int(rem), 0, 0)
    } else if cell_value(rem) != 0 {
        resp(0, 2, t, cell_value(rem) as i32, 0, 2)
    } else {
        resp(1, 0, t, 0, 0, 0)
    }
}

/// A right-hand side that calls a function.
pub open spec fn call_spec(rem: Seq<u8>, t: i32) -> Response {
    let code = func_code(rem);
    let open = find_byte_from(rem, 40, 0);
    let inner = rem.subrange(open + 1, rem.len() - 1);
    let colon = find_byte_from(inner, 58, 0);
    if code == 12 {
        if cell_value(inner) != 0 {
            resp(0, 12, t, cell_value(inner) as i32, 0, 2)
        } else {
            resp(0, 12, t, parsed_int(inner), 0, 0)
        }
    } else if 6 < code < 12 {
        resp(
            0,
            code,
            t,
            cell_value(inner.subrange(0, colon)) as i32,
            cell_value(inner.subrange(colon + 1, inner.len() as int)) as i32,
            3,
        )
    } else if code == 1 {
        resp(2, 0, t, 0, 0, 0)
    } else {
        resp(1, 0, t, 0, 0, 0)
    }
}

/// A right-hand side `VALUE OP VALUE` whose operator stands at `count`.
pub open spec fn arith_spec(rem: Seq<u8>, t: i32, count: int) -> Response {
    let pe = post_expr_code(rem);
    if pe == 0 {
        resp(1, 0, t, 0, 0, 0)
    } else {
        let argtp = pe - 1;
        let a = rem.subrange(0, count);
        let c = rem.subrange(count + 1, rem.len() as int);
        let arg1 = if argtp <= 1 {
            int_or_zero(a)
        } else {
            cell_value(a) as i32
        };
        let arg2 = if argtp == 0 || argtp == 2 {
            int_or_zero(c)
        } else {
            cell_value(c) as i32
        };
        resp(0, op_code(rem[count]), t, arg1, arg2, argtp as i32)
    }
}

/// Whether `b[lo..]` starts with the bytes of `lit`.
fn starts_with_at(b: &[u8], lo: usize, lit: &Vec<u8>) -> (r: bool)
    requires
        lo <= b@.len(),
    ensures
        r == (lo + lit@.len() <= b@.len() && b@.subrange(lo as int, lo + lit@.len()) == lit@),
{
    if lit.len() > b.len() - lo {
        return false;
    }
    let mut i: usize = 0;
    while i < lit.len()
        invariant
            lo + lit@.len() <= b@.len(),
            b@.len() <= usize::MAX,
            i <= lit@.len(),
            forall|k: int| 0 <= k < i ==> b@[lo + k] == lit@[k],
        decreases lit@.len() - i,
    {
        if b[lo + i] != lit[i] {
            assert(b@.subrange(lo as int, lo + lit@.len())[i as int] != lit@[i as int]);
            return false;
        }
        i = i + 1;
    }
    assert(b@.subrange(lo as int, lo + lit@.len()) =~= lit@);
    true
}

/// The assignment command written by `b`; see `assignment_spec`.
fn parse_assignment(b: &[u8]) -> (r: Response)
    ensures
        r == assignment_spec(b@),
{
    let length = b.len();
    let idx = find_byte_at(b, 61, 0);
    if idx > 6 || idx == length || idx < 2 {
        return Response { status: 1, func: 0, target: 0, arg1: 0, arg2: 0, arg_type: 0 };
    }
    let t = cell_at(b, 0, idx);
    if t == 0 {
        return Response { status: 1, func: 0, target: 0, arg1: 0, arg2: 0, arg_type: 0 };
    }
    let rem = &b[idx + 1..length];
    let rlen = rem.len();
    let start: usize = if rlen > 0 && (rem[0] == 45 || rem[0] == 43) {
        1
    } else {
        0
    };
    let count = if start <= rlen {
        find_op_at(rem, start, true)
    } else {
        rlen
    };
    if count >= rlen {
        parse_plain(rem, t)
    } else if rem[count] == 40 {
        parse_call(rem, t)
    } else {
        proof {
            lemma_find_op_paren(rem@, start as int);
        }
        parse_arith(rem, t, count)
    }
}

/// See `plain_spec`.
fn parse_plain(rem: &[u8], t: i32) -> (r: Response)
    ensures
        r == plain_spec(rem@, t),
{
    let rlen = rem.len();
    proof {
        assert(rem@.subrange(0, rlen as int) =~= rem@);
    }
    if integer_at(rem, 0, rlen) {
        proof {
            lemma_integer_ok_syntax(rem@);
        }
        let v = int_at(rem, 0, rlen);
        return Response { status: 0, func: 1, target: t, arg1: v, arg2: 0, arg_type: 0 };
    }
    let c = cell_at(rem, 0, rlen);
    if c != 0 {
        return Response { status: 0, func: 2, target: t, arg1: c, arg2: 0, arg_type: 2 };
    }
    Response { status: 1, func: 0, target: t, arg1: 0, arg2: 0, arg_type: 0 }
}

/// See `call_spec`.
fn parse_call(rem: &[u8], t: i32) -> (r: Response)
    ensures
        r == call_spec(rem@, t),
{
    let rlen = rem.len();
    let (code, open) = parse_func(rem);
    if code == 12 {
        let c = cell_at(rem, open + 1, rlen - 1);
        if c != 0 {
            return Response { status: 0, func: 12, target: t, arg1: c, arg2: 0, arg_type: 2 };
        }
        proof {
            assert(integer_ok(rem@.subrange(open + 1, rlen - 1)));
            lemma_integer_ok_syntax(rem@.subrange(open + 1, rlen - 1));
        }
        let v = int_at(rem, open + 1, rlen - 1);
        return Response { status: 0, func: 12, target: t, arg1: v, arg2: 0, arg_type: 0 };
    } else if code > 6 && code < 12 {
        let inner = &rem[open + 1..rlen - 1];
        let (_, colon) = valid_range(inner);
        let ilen = inner.len();
        proof {
            assert(inner@.subrange(0, colon as int) =~= rem@.subrange(open + 1, rlen - 1).subrange(0, colon as int));
        }
        let a1 = cell_at(inner, 0, colon);
        let a2 = cell_at(inner, colon + 1, ilen);
        return Response { status: 0, func: code, target: t, arg1: a1, arg2: a2, arg_type: 3 };
    } else if code == 1 {
        return Response { status: 2, func: 0, target: t, arg1: 0, arg2: 0, arg_type: 0 };
    }
    Response { status: 1, func: 0, target: t, arg1: 0, arg2: 0, arg_type: 0 }
}

/// See `arith_spec`.
fn parse_arith(rem: &[u8], t: i32, count: usize) -> (r: Response)
    requires
        count < rem@.len(),
        is_op(rem@[count as int], false),
        count == find_op_from(
            rem@,
            if rem@.len() > 0 && (rem@[0] == 45 || rem@[0] == 43) {
                1int
            } else {
                0int
            },
            false,
        ),
    ensures
        r == arith_spec(rem@, t, count as int),
{
    let rlen = rem.len();
    let op = if rem[count] == 43 {
        3
    } else if rem[count] == 45 {
        4
    } else if rem[count] == 42 {
        5
    } else {
        6
    };
    let (pe, opi) = valid_post_expr(rem);
    if pe == 0 {
        return Response { status: 1, func: 0, target: t, arg1: 0, arg2: 0, arg_type: 0 };
    }
    let argtp = pe - 1;
    let a = &rem[0..opi];
    let c = &rem[opi + 1..rlen];
    let arg1 = if argtp <= 1 {
        int_or_zero_at(a)
    } else {
        proof {
            assert(a@.subrange(0, a@.len() as int) =~= a@);
        }
        cell_at(a, 0, a.len())
    };
    let arg2 = if argtp == 0 || argtp == 2 {
        int_or_zero_at(c)
    } else {
        proof {
            assert(c@.subrange(0, c@.len() as int) =~= c@);
        }
        cell_at(c, 0, c.len())
    };
    Response { status: 0, func: op, target: t, arg1, arg2, arg_type: argtp }
}

/// When the first operator-or-parenthesis is no parenthesis, it is also the
/// first operator.
proof fn lemma_find_op_paren(s: Seq<u8>, i: int)
    requires
        0 <= i,
        find_op_from(s, i, true) < s.len(),
        s[find_op_from(s, i, true)] != 40,
    ensures
        find_op_from(s, i, false) == find_op_from(s, i, true),
        is_op(s[find_op_from(s, i, true)], false),
    decreases s.len() - i,
{
    if i < s.len() && !is_op(s[i], true) {
        lemma_find_op_paren(s, i + 1);
    }
}

/// Parses one command line into a `Response`; see `parse_spec`
/// ("A1=MAX(B1:X1)" gives status 0, func 8, target 1001, arg1 2001,
/// arg2 24001, arg_type 3).
pub fn parse(s: &str) -> (r: Response)
    ensures
        r == parse_spec(s.spec_bytes()),
{
    let b = s.as_bytes();
    let length = b.len();
    if length == 0 {
        return Response { status: 2, func: 0, target: 0, arg1: 0, arg2: 0, arg_type: 0 };
    }
    if length == 1 {
        let c = b[0];
        if c == 119 {
            return Response { status: 0, func: 13, target: 0, arg1: 0, arg2: 0, arg_type: 0 };
        }
        if c == 100 {
            return Response { status: 0, func: 14, target: 0, arg1: 0, arg2: 0, arg_type: 0 };
        }
        if c == 97 {
            return Response { status: 0, func: 15, target: 0, arg1: 0, arg2: 0, arg_type: 0 };
        }
        if c == 115 {
            return Response { status: 0, func: 16, target: 0, arg1: 0, arg2: 0, arg_type: 0 };
        }
        if c == 113 {
            return Response { status: 0, func: 17, target: 0, arg1: 0, arg2: 0, arg_type: 0 };
        }
    }
    let disable: Vec<u8> = vec![100u8, 105, 115, 97, 98, 108, 101, 95, 111, 117, 116, 112, 117, 116];
    let enable: Vec<u8> = vec![101u8, 110, 97, 98, 108, 101, 95, 111, 117, 116, 112, 117, 116];
    let scroll: Vec<u8> = vec![115u8, 99, 114, 111, 108, 108, 95, 116, 111, 32];
    proof {
        assert(disable@ =~= disable_text());
        assert(enable@ =~= enable_text());
        assert(scroll@ =~= scroll_text());
        assert(b@.subrange(0, length as int) =~= b@);
    }
    if length == 14 && starts_with_at(b, 0, &disable) {
        return Response { status: 0, func: 18, target: 0, arg1: 0, arg2: 0, arg_type: 0 };
    }
    if length == 13 && starts_with_at(b, 0, &enable) {
        return Response { status: 0, func: 19, target: 0, arg1: 0, arg2: 0, arg_type: 0 };
    }
    proof {
        assert(length != 14 ==> b@ != disable_text());
        assert(length != 13 ==> b@ != enable_text());
    }
    if length > 10 && starts_with_at(b, 0, &scroll) {
        let c = cell_at(b, 10, length);
        if c != 0 {
            return Response { status: 0, func: 20, target: c, arg1: 0, arg2: 0, arg_type: 0 };
        }
    }
    parse_assignment(b)
}

} // verus!
