//! Byte-level helpers shared by the on-disk index artifacts: decimal
//! rendering and parsing of unsigned numbers, and tab-separated fields.

use vstd::prelude::*;

verus! {

pub const TAB: u8 = 9;

/// A byte string that can stand in one column of a tab-separated text line:
/// it holds neither a tab nor a newline.
pub open spec fn line_clean(s: Seq<u8>) -> bool {
    forall|k: int| 0 <= k < s.len() ==> s[k] != 9 && s[k] != 10
}

/// Byte-string equality.
pub fn bytes_eq(a: &[u8], b: &[u8]) -> (r: bool)
    ensures
        r <==> a@ == b@,
{
    if a.len() != b.len() {
        proof {
            assert(a@ != b@);
        }
        return false;
    }
    let mut i: usize = 0;
    while i < a.len()
        invariant
            0 <= i <= a@.len(),
            a@.len() == b@.len(),
            forall|k: int| 0 <= k < i ==> a@[k] == b@[k],
        decreases a@.len() - i,
    {
        if a[i] != b[i] {
            proof {
                assert(a@ != b@);
            }
            return false;
        }
        i = i + 1;
    }
    proof {
        assert(a@ =~= b@);
    }
    true
}

/// Tests `line_clean`.
pub fn is_line_clean(s: &[u8]) -> (r: bool)
    ensures
        r == line_clean(s@),
{
    let mut i: usize = 0;
    while i < s.len()
        invariant
            0 <= i <= s@.len(),
            forall|k: int| 0 <= k < i ==> s@[k] != 9 && s@[k] != 10,
        decreases s@.len() - i,
    {
        if s[i] == 9 || s[i] == 10 {
            return false;
        }
        i = i + 1;
    }
    true
}

pub open spec fn is_digit(b: u8) -> bool {
    48 <= b <= 57
}

pub open spec fn all_digits(s: Seq<u8>) -> bool {
    forall|i: int| 0 <= i < s.len() ==> is_digit(#[trigger] s[i])
}

/// Decimal rendering of a natural number, most significant digit first.
pub open spec fn dec_seq(n: nat) -> Seq<u8>
    decreases n,
{
    if n < 10 {
        seq![(48 + n) as u8]
    } else {
        dec_seq(n / 10).push((48 + n % 10) as u8)
    }
}

/// Value of a digit string (meaningful only when `all_digits` holds).
pub open spec fn dec_val(s: Seq<u8>) -> nat
    decreases s.len(),
{
    if s.len() == 0 {
        0
    } else {
        dec_val(s.drop_last()) * 10 + (if is_digit(s.last()) {
            (s.last() - 48) as nat
        } else {
            0
        })
    }
}

/// A decimal string parses as a `u32` exactly when it is a non-empty digit
/// string whose value fits.
pub open spec fn parse_u32_spec(s: Seq<u8>) -> Option<u32> {
    if s.len() >= 1 && all_digits(s) && dec_val(s) <= u32::MAX {
        Some(dec_val(s) as u32)
    } else {
        None
    }
}

pub proof fn lemma_dec_seq_digits(n: nat)
    ensures
        dec_seq(n).len() >= 1,
        all_digits(dec_seq(n)),
    decreases n,
{
    if n >= 10 {
        lemma_dec_seq_digits(n / 10);
    }
}

pub proof fn lemma_dec_val_of_dec_seq(n: nat)
    ensures
        dec_val(dec_seq(n)) == n,
    decreases n,
{
    if n < 10 {
        let s = dec_seq(n);
        assert(s == seq![(48 + n) as u8]);
        assert(s.len() == 1);
        assert(s.drop_last() =~= Seq::<u8>::empty());
        assert(dec_val(Seq::<u8>::empty()) == 0);
        assert(s.last() == (48 + n) as u8);
        assert(is_digit((48 + n) as u8));
        assert(dec_val(s) == dec_val(s.drop_last()) * 10 + n);
    } else {
        lemma_dec_val_of_dec_seq(n / 10);
        assert(dec_seq(n).drop_last() =~= dec_seq(n / 10));
        assert(dec_seq(n).last() == (48 + n % 10) as u8);
        assert(is_digit((48 + n % 10) as u8));
        assert(dec_val(dec_seq(n)) == dec_val(dec_seq(n / 10)) * 10 + n % 10);
        assert(n == (n / 10) * 10 + n % 10) by {
            vstd::arithmetic::div_mod::lemma_fundamental_div_mod(n as int, 10);
        }
    }
}

/// Renders `n` in decimal.
pub fn fmt_u32(n: u32) -> (r: Vec<u8>)
    ensures
        r@ == dec_seq(n as nat),
    decreases n,
{
    if n < 10 {
        let mut v: Vec<u8> = Vec::new();
        v.push(48 + n as u8);
        proof {
            assert(v@ =~= dec_seq(n as nat));
        }
        v
    } else {
        let mut v = fmt_u32(n / 10);
        v.push(48 + (n % 10) as u8);
        proof {
            assert(v@ =~= dec_seq(n as nat));
        }
        v
    }
}

/// The value of a digit string is at least the value of any of its prefixes.
proof fn lemma_dec_val_prefix(s: Seq<u8>, j: int)
    requires
        0 <= j <= s.len(),
    ensures
        dec_val(s.subrange(0, j)) <= dec_val(s),
    decreases s.len(),
{
    if j < s.len() {
        assert(s.drop_last().subrange(0, j) =~= s.subrange(0, j));
        lemma_dec_val_prefix(s.drop_last(), j);
    } else {
        assert(s.subrange(0, j) =~= s);
    }
}

/// Parses a non-empty decimal digit string into a `u32`, rejecting empty
/// input, non-digits and overflow.
pub fn parse_u32(s: &[u8]) -> (r: Option<u32>)
    ensures
        r == parse_u32_spec(s@),
{
    if s.len() == 0 {
        return None;
    }
    let mut acc: u32 = 0;
    let mut i: usize = 0;
    while i < s.len()
        invariant
            0 <= i <= s@.len(),
            all_digits(s@.subrange(0, i as int)),
            acc == dec_val(s@.subrange(0, i as int)),
        decreases s@.len() - i,
    {
        let b = s[i];
        if b < 48 || b > 57 {
            return None;
        }
        let d: u32 = (b - 48) as u32;
        proof {
            assert(s@.subrange(0, i + 1).drop_last() =~= s@.subrange(0, i as int));
            assert(s@.subrange(0, i + 1).last() == s@[i as int]);
        }
        if acc > (u32::MAX - d) / 10 {
            proof {
                lemma_dec_val_prefix(s@, i + 1);
                assert(dec_val(s@.subrange(0, i + 1)) > u32::MAX);
            }
            return None;
        }
        acc = acc * 10 + d;
        i = i + 1;
    }
    proof {
        assert(s@.subrange(0, s@.len() as int) =~= s@);
    }
    Some(acc)
}

/// Round trip: rendering then parsing gives the number back.
pub proof fn lemma_dec_round_trip(n: u32)
    ensures
        parse_u32_spec(dec_seq(n as nat)) == Some(n),
{
    lemma_dec_seq_digits(n as nat);
    lemma_dec_val_of_dec_seq(n as nat);
}

/// Index of the first tab in `s`, or -1 when there is none.
pub open spec fn find_tab(s: Seq<u8>) -> int
    decreases s.len(),
{
    if s.len() == 0 {
        -1
    } else if s[0] == TAB {
        0
    } else {
        let r = find_tab(s.skip(1));
        if r < 0 {
            -1
        } else {
            r + 1
        }
    }
}

pub proof fn lemma_find_tab(s: Seq<u8>)
    ensures
        find_tab(s) >= 0 ==> {
            &&& find_tab(s) < s.len()
            &&& s[find_tab(s)] == TAB
            &&& forall|k: int| 0 <= k < find_tab(s) ==> s[k] != TAB
        },
        find_tab(s) < 0 ==> forall|k: int| 0 <= k < s.len() ==> s[k] != TAB,
    decreases s.len(),
{
    if s.len() > 0 && s[0] != TAB {
        let t = s.skip(1);
        lemma_find_tab(t);
        assert(forall|k: int| 0 <= k < t.len() ==> t[k] == s[k + 1]);
        if find_tab(t) >= 0 {
            assert(s[find_tab(s)] == t[find_tab(t)]);
            assert forall|k: int| 0 <= k < find_tab(s) implies s[k] != TAB by {
                if k > 0 {
                    assert(s[k] == t[k - 1]);
                }
            }
        } else {
            assert forall|k: int| 0 <= k < s.len() implies s[k] != TAB by {
                if k > 0 {
                    assert(s[k] == t[k - 1]);
                }
            }
        }
    }
}

/// Fields of `s` split at tabs; always at least one field.
pub open spec fn split_spec(s: Seq<u8>) -> Seq<Seq<u8>>
    decreases s.len(),
{
    let i = find_tab(s);
    if i < 0 || i >= s.len() {
        seq![s]
    } else {
        seq![s.subrange(0, i)] + split_spec(s.skip(i + 1))
    }
}

/// Fields joined with single tabs; meaningful for at least one field.
pub open spec fn join_spec(fs: Seq<Seq<u8>>) -> Seq<u8>
    decreases fs.len(),
{
    if fs.len() == 0 {
        Seq::empty()
    } else if fs.len() == 1 {
        fs[0]
    } else {
        fs[0] + seq![TAB] + join_spec(fs.skip(1))
    }
}

pub open spec fn tab_free(f: Seq<u8>) -> bool {
    forall|k: int| 0 <= k < f.len() ==> f[k] != TAB
}

pub open spec fn all_tab_free(fs: Seq<Seq<u8>>) -> bool {
    forall|i: int| 0 <= i < fs.len() ==> tab_free(#[trigger] fs[i])
}

/// Round trip: joining tab-free fields and splitting again gives the fields.
pub proof fn lemma_split_join(fs: Seq<Seq<u8>>)
    requires
        fs.len() >= 1,
        all_tab_free(fs),
    ensures
        split_spec(join_spec(fs)) == fs,
    decreases fs.len(),
{
    let s = join_spec(fs);
    if fs.len() == 1 {
        lemma_find_tab(s);
        if find_tab(s) >= 0 {
            assert(s[find_tab(s)] == TAB);
            assert(false);
        }
        assert(split_spec(s) =~= fs);
    } else {
        let f0 = fs[0];
        let rest = join_spec(fs.skip(1));
        assert(s =~= f0 + seq![TAB] + rest);
        lemma_find_tab(s);
        assert(s[f0.len() as int] == TAB);
        // the first tab is exactly at f0.len()
        if find_tab(s) < 0 {
            assert(false);
        }
        let i = find_tab(s);
        if i < f0.len() {
            assert(s[i] == f0[i]);
            assert(false);
        }
        if i > f0.len() {
            assert(s[f0.len() as int] != TAB);
            assert(false);
        }
        assert(s.subrange(0, i) =~= f0);
        assert(s.skip(i + 1) =~= rest);
        assert(all_tab_free(fs.skip(1)));
        lemma_split_join(fs.skip(1));
        assert(split_spec(s) =~= fs);
    }
}

/// Copies `s[a..b]` into a fresh vector.
pub fn sub_vec(s: &[u8], a: usize, b: usize) -> (r: Vec<u8>)
    requires
        a <= b <= s@.len(),
    ensures
        r@ == s@.subrange(a as int, b as int),
{
    let mut r: Vec<u8> = Vec::new();
    let mut k: usize = a;
    while k < b
        invariant
            a <= k <= b <= s@.len(),
            r@ =~= s@.subrange(a as int, k as int),
        decreases b - k,
    {
        r.push(s[k]);
        proof {
            assert(r@ =~= s@.subrange(a as int, k + 1));
        }
        k = k + 1;
    }
    r
}

/// Appends all of `src` to `dst`.
pub fn append_bytes(dst: &mut Vec<u8>, src: &[u8])
    ensures
        final(dst)@ == old(dst)@ + src@,
{
    let mut k: usize = 0;
    while k < src.len()
        invariant
            0 <= k <= src@.len(),
            dst@ =~= old(dst)@ + src@.subrange(0, k as int),
        decreases src@.len() - k,
    {
        dst.push(src[k]);
        proof {
            assert(dst@ =~= old(dst)@ + src@.subrange(0, k + 1));
        }
        k = k + 1;
    }
    proof {
        assert(dst@ =~= old(dst)@ + src@);
    }
}

/// Splits `s` at tab characters; the result always has at least one field.
pub fn split_tabs(s: &[u8]) -> (r: Vec<Vec<u8>>)
    ensures
        r@.len() == split_spec(s@).len(),
        forall|i: int| 0 <= i < r@.len() ==> r@[i]@ == split_spec(s@)[i],
{
    let mut fields: Vec<Vec<u8>> = Vec::new();
    let mut pos: usize = 0;
    proof {
        assert(s@.skip(0) =~= s@);
        assert(fields@.map_values(|f: Vec<u8>| f@) =~= Seq::<Seq<u8>>::empty());
        assert(split_spec(s@) =~= fields@.map_values(|f: Vec<u8>| f@) + split_spec(s@.skip(0)));
    }
    loop
        invariant
            0 <= pos <= s@.len(),
            split_spec(s@) =~= fields@.map_values(|f: Vec<u8>| f@) + split_spec(s@.skip(pos as int)),
        decreases s@.len() - pos + 1,
    {
        // scan for the next tab at or after pos
        let mut j: usize = pos;
        while j < s.len() && s[j] != TAB
            invariant
                pos <= j <= s@.len(),
                forall|k: int| pos <= k < j ==> s@[k] != TAB,
            decreases s@.len() - j,
        {
            j = j + 1;
        }
        let ghost cur = s@.skip(pos as int);
        proof {
            lemma_find_tab(cur);
            assert(forall|k: int| 0 <= k < cur.len() ==> cur[k] == s@[pos + k]);
        }
        if j == s.len() {
            // no further tab: the remainder is the last field
            proof {
                if find_tab(cur) >= 0 {
                    assert(s@[pos + find_tab(cur)] == TAB);
                    assert(false);
                }
                assert(split_spec(cur) =~= seq![cur]);
            }
            let ghost fields_pre = fields@;
            let f = sub_vec(s, pos, j);
            fields.push(f);
            proof {
                assert(fields@.map_values(|f: Vec<u8>| f@) =~= fields_pre.map_values(
                    |f: Vec<u8>| f@,
                ).push(cur));
                assert(split_spec(s@) =~= fields@.map_values(|f: Vec<u8>| f@));
            }
            return fields;
        } else {
            proof {
                assert(s@[j as int] == TAB);
                assert(cur[j - pos] == TAB);
                let i = find_tab(cur);
                if i < 0 {
                    assert(false);
                }
                if i < j - pos {
                    assert(s@[pos + i] == TAB);
                    assert(false);
                }
                if i > j - pos {
                    assert(cur[j - pos] != TAB);
                    assert(false);
                }
                assert(i == j - pos);
                assert(cur.subrange(0, i) =~= s@.subrange(pos as int, j as int));
                assert(cur.skip(i + 1) =~= s@.skip(j + 1));
            }
            let ghost fields_pre = fields@;
            let f = sub_vec(s, pos, j);
            fields.push(f);
            proof {
                assert(fields@.map_values(|f: Vec<u8>| f@) =~= fields_pre.map_values(
                    |f: Vec<u8>| f@,
                ).push(s@.subrange(pos as int, j as int)));
                assert(split_spec(s@) =~= fields@.map_values(|f: Vec<u8>| f@) + split_spec(
                    s@.skip(j + 1),
                ));
            }
            pos = j + 1;
        }
    }
}

} // verus!
