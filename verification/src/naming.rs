//! Names of the hierarchy folders and cell files.
use vstd::prelude::*;

use crate::cell::CellId;

verus! {

/// The decimal digit for `d < 10`.
pub open spec fn digit_char(d: nat) -> char {
    if d == 0 {
        '0'
    } else if d == 1 {
        '1'
    } else if d == 2 {
        '2'
    } else if d == 3 {
        '3'
    } else if d == 4 {
        '4'
    } else if d == 5 {
        '5'
    } else if d == 6 {
        '6'
    } else if d == 7 {
        '7'
    } else if d == 8 {
        '8'
    } else {
        '9'
    }
}

/// The decimal representation of `n`, without leading zeros.
pub open spec fn decimal(n: nat) -> Seq<char>
    decreases n,
{
    if n < 10 {
        seq![digit_char(n)]
    } else {
        decimal(n / 10) + seq![digit_char(n % 10)]
    }
}

/// The decimal representation of `v`, with a leading `-` when negative.
pub open spec fn signed_decimal(v: int) -> Seq<char> {
    if v < 0 {
        seq!['-'] + decimal((-v) as nat)
    } else {
        decimal(v as nat)
    }
}

/// The name of the folder of hierarchy level `h`: `h_` and its number.
pub open spec fn hierarchy_name(h: u32) -> Seq<char> {
    seq!['h', '_'] + decimal(h as nat)
}

/// The name of a cell's file within its folder: `c_`, the index's coordinates
/// separated by `_`, and `.bin`.
pub open spec fn cell_file_name(id: CellId) -> Seq<char> {
    index_name(id) + seq!['.', 'b', 'i', 'n']
}

/// The index part of a cell's file name: `c_` and the coordinates separated by `_`.
pub open spec fn index_name(id: CellId) -> Seq<char> {
    seq!['c', '_'] + signed_decimal(id.index.x as int) + seq!['_'] + signed_decimal(
        id.index.y as int,
    ) + seq!['_'] + signed_decimal(id.index.z as int)
}

/// A decimal digit.
pub open spec fn is_digit(c: char) -> bool {
    '0' <= c && c <= '9'
}

/// Each digit names one number below ten.
proof fn lemma_digit_char(a: nat, b: nat)
    requires
        a < 10,
        b < 10,
    ensures
        is_digit(digit_char(a)),
        digit_char(a) == digit_char(b) ==> a == b,
{
}

/// A decimal representation is a non-empty run of digits.
proof fn lemma_decimal_digits(n: nat)
    ensures
        decimal(n).len() >= 1,
        forall|i: int| 0 <= i < decimal(n).len() ==> is_digit(#[trigger] decimal(n)[i]),
    decreases n,
{
    if n < 10 {
        lemma_digit_char(n, n);
    } else {
        lemma_decimal_digits(n / 10);
        lemma_digit_char(n % 10, n % 10);
        let d = decimal(n);
        assert forall|i: int| 0 <= i < d.len() implies is_digit(#[trigger] d[i]) by {
            if i < decimal(n / 10).len() {
                assert(d[i] == decimal(n / 10)[i]);
            }
        }
    }
}

/// Distinct numbers have distinct decimal representations.
pub proof fn lemma_decimal_injective(a: nat, b: nat)
    ensures
        decimal(a) == decimal(b) ==> a == b,
    decreases a,
{
    if decimal(a) == decimal(b) {
        lemma_decimal_digits(a / 10);
        lemma_decimal_digits(b / 10);
        if a < 10 && b < 10 {
            assert(decimal(a)[0] == decimal(b)[0]);
            lemma_digit_char(a, b);
        } else if a < 10 {
            assert(decimal(b).len() >= 2);
        } else if b < 10 {
            assert(decimal(a).len() >= 2);
        } else {
            let (da, db) = (decimal(a), decimal(b));
            assert(da.last() == db.last());
            assert(da.drop_last() =~= decimal(a / 10));
            assert(db.drop_last() =~= decimal(b / 10));
            lemma_digit_char(a % 10, b % 10);
            lemma_decimal_injective(a / 10, b / 10);
        }
    }
}

/// A signed decimal representation holds a leading `-` and digits only.
proof fn lemma_signed_decimal_chars(v: int)
    ensures
        signed_decimal(v).len() >= 1,
        forall|i: int|
            0 <= i < signed_decimal(v).len() ==> #[trigger] signed_decimal(v)[i] != '_',
        v < 0 <==> signed_decimal(v)[0] == '-',
{
    if v < 0 {
        lemma_decimal_digits((-v) as nat);
        let s = signed_decimal(v);
        assert forall|i: int| 0 <= i < s.len() implies #[trigger] s[i] != '_' by {
            if i > 0 {
                assert(s[i] == decimal((-v) as nat)[i - 1]);
            }
        }
    } else {
        lemma_decimal_digits(v as nat);
        assert(is_digit(decimal(v as nat)[0]));
    }
}

/// Distinct values have distinct signed decimal representations.
pub proof fn lemma_signed_decimal_injective(v: int, w: int)
    ensures
        signed_decimal(v) == signed_decimal(w) ==> v == w,
{
    if signed_decimal(v) == signed_decimal(w) {
        lemma_signed_decimal_chars(v);
        lemma_signed_decimal_chars(w);
        if v < 0 && w < 0 {
            assert(signed_decimal(v).drop_first() =~= decimal((-v) as nat));
            assert(signed_decimal(w).drop_first() =~= decimal((-w) as nat));
            lemma_decimal_injective((-v) as nat, (-w) as nat);
        } else if v >= 0 && w >= 0 {
            lemma_decimal_injective(v as nat, w as nat);
        }
    }
}

/// Text before a separator that it does not hold is cut off the same way in
/// two equal texts.
proof fn lemma_split_at(a: Seq<char>, r: Seq<char>, b: Seq<char>, t: Seq<char>, sep: char)
    requires
        forall|i: int| 0 <= i < a.len() ==> #[trigger] a[i] != sep,
        forall|i: int| 0 <= i < b.len() ==> #[trigger] b[i] != sep,
        a + seq![sep] + r == b + seq![sep] + t,
    ensures
        a == b,
        r == t,
{
    let x = a + seq![sep] + r;
    let y = b + seq![sep] + t;
    if a.len() < b.len() {
        assert(x[a.len() as int] == sep);
        assert(y[a.len() as int] == b[a.len() as int]);
    } else if b.len() < a.len() {
        assert(y[b.len() as int] == sep);
        assert(x[b.len() as int] == a[b.len() as int]);
    }
    assert(a =~= x.subrange(0, a.len() as int));
    assert(b =~= y.subrange(0, b.len() as int));
    assert(r =~= x.subrange(a.len() as int + 1, x.len() as int));
    assert(t =~= y.subrange(b.len() as int + 1, y.len() as int));
}

/// Law: distinct cells are stored in distinct files. Two cells with the same
/// hierarchy folder and the same file name are the same cell.
pub proof fn lemma_cell_paths_distinct(a: CellId, b: CellId)
    ensures
        hierarchy_name(a.hierarchy) == hierarchy_name(b.hierarchy) && cell_file_name(a)
            == cell_file_name(b) ==> a == b,
{
    if hierarchy_name(a.hierarchy) == hierarchy_name(b.hierarchy) && cell_file_name(a)
        == cell_file_name(b) {
        assert(hierarchy_name(a.hierarchy).skip(2) =~= decimal(a.hierarchy as nat));
        assert(hierarchy_name(b.hierarchy).skip(2) =~= decimal(b.hierarchy as nat));
        lemma_decimal_injective(a.hierarchy as nat, b.hierarchy as nat);
        let (fa, fb) = (cell_file_name(a), cell_file_name(b));
        assert(fa.subrange(0, fa.len() - 4) =~= index_name(a));
        assert(fb.subrange(0, fb.len() - 4) =~= index_name(b));
        let (xa, ya, za) = (
            signed_decimal(a.index.x as int),
            signed_decimal(a.index.y as int),
            signed_decimal(a.index.z as int),
        );
        let (xb, yb, zb) = (
            signed_decimal(b.index.x as int),
            signed_decimal(b.index.y as int),
            signed_decimal(b.index.z as int),
        );
        lemma_signed_decimal_chars(a.index.x as int);
        lemma_signed_decimal_chars(a.index.y as int);
        lemma_signed_decimal_chars(b.index.x as int);
        lemma_signed_decimal_chars(b.index.y as int);
        assert(index_name(a).skip(2) =~= xa + seq!['_'] + (ya + seq!['_'] + za));
        assert(index_name(b).skip(2) =~= xb + seq!['_'] + (yb + seq!['_'] + zb));
        lemma_split_at(xa, ya + seq!['_'] + za, xb, yb + seq!['_'] + zb, '_');
        lemma_split_at(ya, za, yb, zb, '_');
        lemma_signed_decimal_injective(a.index.x as int, b.index.x as int);
        lemma_signed_decimal_injective(a.index.y as int, b.index.y as int);
        lemma_signed_decimal_injective(a.index.z as int, b.index.z as int);
    }
}

fn push_str(s: &mut String, t: &str)
    ensures
        final(s)@ == old(s)@ + t@,
{
    s.append(t);
}

/// The one-character string of a decimal digit.
fn digit_str(d: u64) -> (r: &'static str)
    requires
        d < 10,
    ensures
        r@ == seq![digit_char(d as nat)],
{
    if d == 0 {
        proof { reveal_strlit("0"); }
        "0"
    } else if d == 1 {
        proof { reveal_strlit("1"); }
        "1"
    } else if d == 2 {
        proof { reveal_strlit("2"); }
        "2"
    } else if d == 3 {
        proof { reveal_strlit("3"); }
        "3"
    } else if d == 4 {
        proof { reveal_strlit("4"); }
        "4"
    } else if d == 5 {
        proof { reveal_strlit("5"); }
        "5"
    } else if d == 6 {
        proof { reveal_strlit("6"); }
        "6"
    } else if d == 7 {
        proof { reveal_strlit("7"); }
        "7"
    } else if d == 8 {
        proof { reveal_strlit("8"); }
        "8"
    } else {
        proof { reveal_strlit("9"); }
        "9"
    }
}

/// Appends the decimal representation of `n`.
pub fn push_decimal(s: &mut String, n: u64)
    ensures
        final(s)@ == old(s)@ + decimal(n as nat),
    decreases n,
{
    if n < 10 {
        push_str(s, digit_str(n));
    } else {
        push_decimal(s, n / 10);
        push_str(s, digit_str(n % 10));
        assert(final(s)@ =~= old(s)@ + decimal(n as nat));
    }
}

/// Appends the decimal representation of `v`, with a leading `-` when negative.
pub fn push_signed_decimal(s: &mut String, v: i32)
    ensures
        final(s)@ == old(s)@ + signed_decimal(v as int),
{
    if v < 0 {
        proof { reveal_strlit("-"); }
        push_str(s, "-");
        let magnitude: u64 = (-(v as i64)) as u64;
        push_decimal(s, magnitude);
        assert(final(s)@ =~= old(s)@ + signed_decimal(v as int));
    } else {
        push_decimal(s, v as u64);
    }
}

/// The name of the folder of hierarchy level `hierarchy`, such as `h_3`.
pub fn hierarchy_string(hierarchy: u32) -> (r: String)
    ensures
        r@ == hierarchy_name(hierarchy),
{
    proof { reveal_strlit("h_"); }
    let mut s = String::from_str("h_");
    push_decimal(&mut s, hierarchy as u64);
    s
}

impl CellId {
    /// The index part of the cell's file name, such as `c_1_-2_0`.
    pub fn index_string(&self) -> (r: String)
        ensures
            r@ == index_name(*self),
    {
        proof {
            reveal_strlit("c_");
            reveal_strlit("_");
        }
        let mut s = String::from_str("c_");
        push_signed_decimal(&mut s, self.index.x);
        push_str(&mut s, "_");
        push_signed_decimal(&mut s, self.index.y);
        push_str(&mut s, "_");
        push_signed_decimal(&mut s, self.index.z);
        assert(s@ =~= index_name(*self));
        s
    }

    /// Where the cell's file lies below the point cloud's folder: the folder
    /// of its hierarchy level, and the file name, such as `h_3` and
    /// `c_1_-2_0.bin`.
    pub fn path(&self) -> (r: (String, String))
        ensures
            r.0@ == hierarchy_name(self.hierarchy),
            r.1@ == cell_file_name(*self),
    {
        proof { reveal_strlit(".bin"); }
        let dir = hierarchy_string(self.hierarchy);
        let mut file = self.index_string();
        push_str(&mut file, ".bin");
        assert(file@ =~= cell_file_name(*self));
        (dir, file)
    }
}

} // verus!
