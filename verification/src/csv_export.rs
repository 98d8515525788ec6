//! The report exporter's verified core: it renders the aggregated results
//! as the delimited tabular file's bytes and parses a data row back. Raw
//! counts and times are integer columns; the four derived ratio columns and
//! the theoretical logarithm column are carried as pre-formatted text, so a
//! row parses back to exactly the fields it was built from.

use crate::types::BenchmarkResults;
use vstd::arithmetic::div_mod::{lemma_div_multiples_vanish_fancy, lemma_fundamental_div_mod};
use vstd::prelude::*;
use vstd::string::*;

verus! {

/// Decimal digit bytes of `n`, most significant first: what an integer
/// column of the tabular file holds.
pub open spec fn dec_digits(n: nat) -> Seq<u8>
    decreases n,
{
    if n < 10 {
        seq![(48 + n) as u8]
    } else {
        dec_digits(n / 10).push((48 + n % 10) as u8)
    }
}

/// Value of a sequence of decimal digit bytes, most significant first.
pub open spec fn dec_val(s: Seq<u8>) -> nat
    decreases s.len(),
{
    if s.len() == 0 {
        0
    } else {
        10 * dec_val(s.drop_last()) + (if 48 <= s.last() <= 57 {
            (s.last() - 48) as nat
        } else {
            0
        })
    }
}

pub open spec fn is_digit_seq(s: Seq<u8>) -> bool {
    forall|i: int| 0 <= i < s.len() ==> 48 <= #[trigger] s[i] <= 57
}

/// Canonical decimal text: non-empty, digits only, and no redundant
/// leading zero.
pub open spec fn is_canonical_dec(s: Seq<u8>) -> bool {
    &&& s.len() >= 1
    &&& is_digit_seq(s)
    &&& (s.len() > 1 ==> s[0] != 48)
}

proof fn lemma_dec_digits_shape(n: nat)
    ensures
        is_canonical_dec(dec_digits(n)),
        n < 10 ==> dec_digits(n).len() == 1,
        n >= 10 ==> dec_digits(n).len() > 1,
    decreases n,
{
    if n < 10 {
    } else {
        lemma_dec_digits_shape(n / 10);
        assert(dec_digits(n)[0] == dec_digits(n / 10)[0]);
    }
}

proof fn lemma_dec_val_of_digits(n: nat)
    ensures
        dec_val(dec_digits(n)) == n,
    decreases n,
{
    if n < 10 {
        assert(dec_digits(n).drop_last() =~= Seq::<u8>::empty());
        assert(dec_val(Seq::<u8>::empty()) == 0);
    } else {
        lemma_dec_val_of_digits(n / 10);
        assert(dec_digits(n).drop_last() =~= dec_digits(n / 10));
        lemma_fundamental_div_mod(n as int, 10);
    }
}

proof fn lemma_dec_val_lower(s: Seq<u8>)
    requires
        is_digit_seq(s),
        s.len() >= 1,
        s[0] != 48,
    ensures
        dec_val(s) >= 1,
    decreases s.len(),
{
    if s.len() == 1 {
    } else {
        assert(s.drop_last()[0] == s[0]);
        lemma_dec_val_lower(s.drop_last());
    }
}

proof fn lemma_dec_canonical(s: Seq<u8>)
    requires
        is_canonical_dec(s),
    ensures
        s == dec_digits(dec_val(s)),
    decreases s.len(),
{
    if s.len() == 1 {
        assert(s.drop_last() =~= Seq::<u8>::empty());
        assert(dec_val(Seq::<u8>::empty()) == 0);
        assert(dec_val(s) == (s[0] - 48) as nat);
        assert(s =~= dec_digits(dec_val(s)));
    } else {
        let p = s.drop_last();
        let d = s.last();
        assert(p[0] == s[0]);
        assert(is_digit_seq(p));
        lemma_dec_canonical(p);
        lemma_dec_val_lower(p);
        let vp = dec_val(p);
        let n = dec_val(s);
        assert(n == 10 * vp + (d - 48));
        lemma_div_multiples_vanish_fancy(vp as int, d - 48, 10);
        assert(n / 10 == vp);
        lemma_fundamental_div_mod(n as int, 10);
        assert(n % 10 == d - 48);
        assert(dec_digits(n) == dec_digits(vp).push((48 + n % 10) as u8));
        assert(s =~= p.push(d));
        assert((48 + n % 10) as u8 == d);
    }
}

proof fn lemma_dec_val_take_le(s: Seq<u8>, i: int)
    requires
        is_digit_seq(s),
        0 <= i <= s.len(),
    ensures
        dec_val(s.take(i)) <= dec_val(s),
    decreases s.len() - i,
{
    if i == s.len() {
        assert(s.take(i) =~= s);
    } else {
        assert(s.take(i + 1).drop_last() =~= s.take(i));
        assert(s.take(i + 1).last() == s[i]);
        assert(dec_val(s.take(i)) <= dec_val(s.take(i + 1)));
        lemma_dec_val_take_le(s, i + 1);
    }
}

/// Decimal text of a value: exactly `dec_digits` of it.
pub fn fmt_u128(n: u128) -> (r: Vec<u8>)
    ensures
        r@ == dec_digits(n as nat),
    decreases n,
{
    if n < 10 {
        let mut v: Vec<u8> = Vec::new();
        v.push(48 + (n as u8));
        proof {
            assert(v@ =~= dec_digits(n as nat));
        }
        v
    } else {
        let mut v = fmt_u128(n / 10);
        v.push(48 + ((n % 10) as u8));
        proof {
            assert(v@ =~= dec_digits(n as nat));
        }
        v
    }
}

/// Parse decimal text: returns the value exactly when the bytes are the
/// canonical decimal digits of a value that fits in `u128`, and reports
/// failure otherwise (empty or non-digit text, a redundant leading zero,
/// or a value out of range).
pub fn parse_u128(s: &Vec<u8>) -> (r: Option<u128>)
    ensures
        match r {
            Some(v) => s@ == dec_digits(v as nat),
            None => forall|m: nat| m <= u128::MAX ==> s@ != dec_digits(m),
        },
{
    let n = s.len();
    if n == 0 {
        proof {
            assert forall|m: nat| m <= u128::MAX implies s@ != dec_digits(m) by {
                lemma_dec_digits_shape(m);
            }
        }
        return None;
    }
    if n > 1 && s[0] == 48 {
        proof {
            assert forall|m: nat| m <= u128::MAX implies s@ != dec_digits(m) by {
                lemma_dec_digits_shape(m);
            }
        }
        return None;
    }
    let mut acc: u128 = 0;
    let mut i: usize = 0;
    while i < n
        invariant
            n == s@.len(),
            0 <= i <= n,
            n >= 1,
            n > 1 ==> s@[0] != 48,
            is_digit_seq(s@.take(i as int)),
            acc == dec_val(s@.take(i as int)),
        decreases n - i,
    {
        let b = s[i];
        if b < 48 || b > 57 {
            proof {
                assert forall|m: nat| m <= u128::MAX implies s@ != dec_digits(m) by {
                    lemma_dec_digits_shape(m);
                    if s@ == dec_digits(m) {
                        assert(48 <= s@[i as int] <= 57);
                    }
                }
            }
            return None;
        }
        let d = b - 48;
        proof {
            assert(s@.take(i + 1).drop_last() =~= s@.take(i as int));
            assert(s@.take(i + 1).last() == s@[i as int]);
            assert(is_digit_seq(s@.take(i + 1)));
            assert(dec_val(s@.take(i + 1)) == 10 * acc + d);
        }
        let shifted = match acc.checked_mul(10) {
            Some(t) => t,
            None => {
                proof {
                    assert forall|m: nat| m <= u128::MAX implies s@ != dec_digits(m) by {
                        if s@ == dec_digits(m) {
                            lemma_dec_digits_shape(m);
                            lemma_dec_val_of_digits(m);
                            lemma_dec_val_take_le(s@, i + 1);
                        }
                    }
                }
                return None;
            },
        };
        let next = match shifted.checked_add(d as u128) {
            Some(a) => a,
            None => {
                proof {
                    assert forall|m: nat| m <= u128::MAX implies s@ != dec_digits(m) by {
                        if s@ == dec_digits(m) {
                            lemma_dec_digits_shape(m);
                            lemma_dec_val_of_digits(m);
                            lemma_dec_val_take_le(s@, i + 1);
                        }
                    }
                }
                return None;
            },
        };
        acc = next;
        i = i + 1;
    }
    proof {
        assert(s@.take(n as int) =~= s@);
        assert(is_canonical_dec(s@));
        lemma_dec_canonical(s@);
    }
    Some(acc)
}


/// A field holds no comma, the field separator.
pub open spec fn comma_free(f: Seq<u8>) -> bool {
    forall|i: int| 0 <= i < f.len() ==> #[trigger] f[i] != 44
}

/// A field holds no newline, the row terminator.
pub open spec fn newline_free(f: Seq<u8>) -> bool {
    forall|i: int| 0 <= i < f.len() ==> #[trigger] f[i] != 10
}

/// The fields joined by commas, in order.
pub open spec fn join_fields(fs: Seq<Seq<u8>>) -> Seq<u8>
    decreases fs.len(),
{
    if fs.len() == 0 {
        Seq::empty()
    } else if fs.len() == 1 {
        fs[0]
    } else {
        fs[0] + seq![44u8] + join_fields(fs.drop_first())
    }
}

/// The comma-separated fields of `s`; a text without commas is one field.
pub open spec fn split_fields(s: Seq<u8>) -> Seq<Seq<u8>>
    decreases s.len(),
{
    if s.len() == 0 {
        seq![Seq::<u8>::empty()]
    } else if s[0] == 44 {
        seq![Seq::<u8>::empty()] + split_fields(s.drop_first())
    } else {
        let rest = split_fields(s.drop_first());
        seq![seq![s[0]] + rest[0]] + rest.drop_first()
    }
}

proof fn lemma_split_fields_len(s: Seq<u8>)
    ensures
        split_fields(s).len() >= 1,
    decreases s.len(),
{
    if s.len() == 0 {
    } else {
        lemma_split_fields_len(s.drop_first());
    }
}

proof fn lemma_split_snoc_comma(s: Seq<u8>)
    ensures
        split_fields(s + seq![44u8]) =~~= split_fields(s).push(Seq::<u8>::empty()),
    decreases s.len(),
{
    lemma_split_fields_len(s);
    let t = s + seq![44u8];
    if s.len() == 0 {
        assert(t.drop_first() =~= Seq::<u8>::empty());
        assert(split_fields(Seq::<u8>::empty()) =~~= seq![Seq::<u8>::empty()]);
        assert(t[0] == 44);
        assert(split_fields(t) =~~= split_fields(s).push(Seq::<u8>::empty()));
    } else {
        assert(t.drop_first() =~= s.drop_first() + seq![44u8]);
        lemma_split_snoc_comma(s.drop_first());
        lemma_split_fields_len(s.drop_first());
        if s[0] == 44 {
            assert(split_fields(t) =~~= split_fields(s).push(Seq::<u8>::empty()));
        } else {
            let r0 = split_fields(s.drop_first());
            let r1 = split_fields(s.drop_first() + seq![44u8]);
            assert(r1 =~~= r0.push(Seq::<u8>::empty()));
            assert(r1[0] == r0[0]);
            assert(r1.drop_first() =~~= r0.drop_first().push(Seq::<u8>::empty()));
            assert(split_fields(t) =~~= split_fields(s).push(Seq::<u8>::empty()));
        }
    }
}

proof fn lemma_split_snoc_byte(s: Seq<u8>, b: u8)
    requires
        b != 44,
    ensures
        split_fields(s + seq![b]) =~~= split_fields(s).drop_last().push(
            split_fields(s).last().push(b),
        ),
    decreases s.len(),
{
    lemma_split_fields_len(s);
    let t = s + seq![b];
    if s.len() == 0 {
        assert(t.drop_first() =~= Seq::<u8>::empty());
        assert(t[0] == b);
        let rest = split_fields(t.drop_first());
        assert(split_fields(t) =~~= seq![seq![b]]);
        assert(split_fields(s).drop_last().push(split_fields(s).last().push(b)) =~~= seq![
            seq![b],
        ]);
    } else {
        assert(t.drop_first() =~= s.drop_first() + seq![b]);
        lemma_split_snoc_byte(s.drop_first(), b);
        lemma_split_fields_len(s.drop_first());
        let r0 = split_fields(s.drop_first());
        let r1 = split_fields(s.drop_first() + seq![b]);
        assert(r1 =~~= r0.drop_last().push(r0.last().push(b)));
        if s[0] == 44 {
            assert(split_fields(t) =~~= split_fields(s).drop_last().push(
                split_fields(s).last().push(b),
            ));
        } else {
            if r0.len() == 1 {
                assert(r1[0] == r0[0].push(b));
                assert(split_fields(t) =~~= split_fields(s).drop_last().push(
                    split_fields(s).last().push(b),
                ));
            } else {
                assert(r1[0] == r0[0]);
                assert(r1.drop_first() =~~= r0.drop_first().drop_last().push(
                    r0.drop_first().last().push(b),
                ));
                assert(split_fields(t) =~~= split_fields(s).drop_last().push(
                    split_fields(s).last().push(b),
                ));
            }
        }
    }
}

proof fn lemma_join_of_split(s: Seq<u8>)
    ensures
        join_fields(split_fields(s)) =~= s,
    decreases s.len(),
{
    lemma_split_fields_len(s);
    if s.len() == 0 {
    } else {
        lemma_join_of_split(s.drop_first());
        lemma_split_fields_len(s.drop_first());
        if s[0] == 44 {
            let fs = split_fields(s);
            assert(fs.drop_first() =~~= split_fields(s.drop_first()));
            assert(join_fields(fs) =~= s);
        } else {
            let rest = split_fields(s.drop_first());
            let fs = split_fields(s);
            if rest.len() == 1 {
                assert(fs.len() == 1);
                assert(join_fields(rest) == rest[0]);
                assert(fs[0] =~= seq![s[0]] + s.drop_first());
                assert(s =~= seq![s[0]] + s.drop_first());
                assert(join_fields(fs) =~= s);
            } else {
                assert(fs.len() >= 2);
                assert(fs[0] == seq![s[0]] + rest[0]);
                assert(fs.drop_first() =~~= rest.drop_first());
                assert(join_fields(rest) == rest[0] + seq![44u8] + join_fields(rest.drop_first()));
                assert(join_fields(fs) == fs[0] + seq![44u8] + join_fields(fs.drop_first()));
                assert(join_fields(fs.drop_first()) == join_fields(rest.drop_first()));
                assert(s.drop_first() == rest[0] + seq![44u8] + join_fields(rest.drop_first()));
                assert(s =~= seq![s[0]] + s.drop_first());
                assert(join_fields(fs) =~= s);
            }
        }
    }
}

proof fn lemma_split_comma_free(f: Seq<u8>)
    requires
        comma_free(f),
    ensures
        split_fields(f) =~~= seq![f],
    decreases f.len(),
{
    if f.len() == 0 {
    } else {
        assert(f[0] != 44);
        lemma_split_comma_free(f.drop_first());
        assert(seq![f[0]] + f.drop_first() =~= f);
    }
}

proof fn lemma_split_prefix(f: Seq<u8>, tail: Seq<u8>)
    requires
        comma_free(f),
    ensures
        split_fields(f + seq![44u8] + tail) =~~= seq![f] + split_fields(tail),
    decreases f.len(),
{
    lemma_split_fields_len(tail);
    let s = f + seq![44u8] + tail;
    if f.len() == 0 {
        assert(s[0] == 44);
        assert(s.drop_first() =~= tail);
    } else {
        assert(s[0] == f[0] && f[0] != 44);
        assert(s.drop_first() =~= f.drop_first() + seq![44u8] + tail);
        lemma_split_prefix(f.drop_first(), tail);
        let rest = split_fields(s.drop_first());
        assert(rest =~~= seq![f.drop_first()] + split_fields(tail));
        assert(rest[0] == f.drop_first());
        assert(rest.drop_first() =~~= split_fields(tail));
        assert(seq![s[0]] + rest[0] =~= f);
        assert(split_fields(s) =~~= seq![f] + split_fields(tail));
    }
}

proof fn lemma_split_of_join(fs: Seq<Seq<u8>>)
    requires
        fs.len() >= 1,
        forall|k: int| 0 <= k < fs.len() ==> comma_free(#[trigger] fs[k]),
    ensures
        split_fields(join_fields(fs)) =~~= fs,
    decreases fs.len(),
{
    if fs.len() == 1 {
        lemma_split_comma_free(fs[0]);
        assert(split_fields(join_fields(fs)) =~~= fs);
    } else {
        assert(forall|k: int|
            0 <= k < fs.drop_first().len() ==> comma_free(#[trigger] fs.drop_first()[k]));
        lemma_split_of_join(fs.drop_first());
        lemma_split_prefix(fs[0], join_fields(fs.drop_first()));
        assert(split_fields(join_fields(fs)) =~~= seq![fs[0]] + fs.drop_first());
        assert(seq![fs[0]] + fs.drop_first() =~~= fs);
    }
}

proof fn lemma_split_fields_wf(s: Seq<u8>)
    ensures
        forall|k: int| 0 <= k < split_fields(s).len() ==> comma_free(#[trigger] split_fields(s)[k]),
        newline_free(s) ==> forall|k: int|
            0 <= k < split_fields(s).len() ==> newline_free(#[trigger] split_fields(s)[k]),
    decreases s.len(),
{
    lemma_split_fields_len(s);
    if s.len() == 0 {
    } else {
        lemma_split_fields_wf(s.drop_first());
        lemma_split_fields_len(s.drop_first());
        assert(newline_free(s) ==> newline_free(s.drop_first()));
        let fs = split_fields(s);
        let rest = split_fields(s.drop_first());
        if s[0] == 44 {
            assert forall|k: int| 0 <= k < fs.len() implies comma_free(#[trigger] fs[k]) by {
                if k > 0 {
                    assert(fs[k] == rest[k - 1]);
                }
            }
            if newline_free(s) {
                assert forall|k: int| 0 <= k < fs.len() implies newline_free(#[trigger] fs[k]) by {
                    if k > 0 {
                        assert(fs[k] == rest[k - 1]);
                    }
                }
            }
        } else {
            assert(fs[0] == seq![s[0]] + rest[0]);
            assert forall|k: int| 0 <= k < fs.len() implies comma_free(#[trigger] fs[k]) by {
                if k > 0 {
                    assert(fs[k] == rest.drop_first()[k - 1]);
                    assert(fs[k] == rest[k]);
                }
            }
            if newline_free(s) {
                assert(s[0] != 10);
                assert forall|k: int| 0 <= k < fs.len() implies newline_free(#[trigger] fs[k]) by {
                    if k > 0 {
                        assert(fs[k] == rest[k]);
                    }
                }
            }
        }
    }
}

proof fn lemma_join_newline_free(fs: Seq<Seq<u8>>)
    requires
        forall|k: int| 0 <= k < fs.len() ==> newline_free(#[trigger] fs[k]),
    ensures
        newline_free(join_fields(fs)),
    decreases fs.len(),
{
    if fs.len() <= 1 {
    } else {
        assert(forall|k: int|
            0 <= k < fs.drop_first().len() ==> newline_free(#[trigger] fs.drop_first()[k]));
        lemma_join_newline_free(fs.drop_first());
        let j = join_fields(fs);
        assert forall|i: int| 0 <= i < j.len() implies #[trigger] j[i] != 10 by {
            if i < fs[0].len() {
                assert(j[i] == fs[0][i]);
            } else if i == fs[0].len() {
                assert(j[i] == 44);
            } else {
                assert(j[i] == join_fields(fs.drop_first())[i - fs[0].len() - 1]);
            }
        }
    }
}

proof fn lemma_join_push(fs: Seq<Seq<u8>>, f: Seq<u8>)
    requires
        fs.len() >= 1,
    ensures
        join_fields(fs.push(f)) =~= join_fields(fs) + seq![44u8] + f,
    decreases fs.len(),
{
    if fs.len() == 1 {
        assert(fs.push(f)[0] == fs[0]);
        assert(fs.push(f).drop_first() =~~= seq![f]);
        assert(join_fields(seq![f]) == f);
    } else {
        assert(fs.push(f)[0] == fs[0]);
        assert(fs.push(f).drop_first() =~~= fs.drop_first().push(f));
        lemma_join_push(fs.drop_first(), f);
    }
}


/// Append a copy of `src` to `dst`.
fn push_all(dst: &mut Vec<u8>, src: &Vec<u8>)
    ensures
        final(dst)@ == old(dst)@ + src@,
{
    proof {
        assert(old(dst)@ + src@.take(0) =~= old(dst)@);
    }
    let mut j: usize = 0;
    while j < src.len()
        invariant
            j <= src@.len(),
            dst@ == old(dst)@ + src@.take(j as int),
        decreases src@.len() - j,
    {
        dst.push(src[j]);
        proof {
            assert(old(dst)@ + src@.take(j + 1) =~= (old(dst)@ + src@.take(j as int)).push(
                src@[j as int],
            ));
        }
        j = j + 1;
    }
    proof {
        assert(src@.take(src@.len() as int) =~= src@);
    }
}

/// A fresh copy of a byte vector.
fn copy_bytes(src: &Vec<u8>) -> (r: Vec<u8>)
    ensures
        r@ == src@,
{
    let mut r: Vec<u8> = Vec::new();
    push_all(&mut r, src);
    proof {
        assert(Seq::<u8>::empty() + src@ =~= src@);
    }
    r
}

/// Split a header-less line at commas, exactly as `split_fields` does.
fn split_commas(line: &Vec<u8>) -> (r: Vec<Vec<u8>>)
    ensures
        r@.map_values(|f: Vec<u8>| f@) == split_fields(line@),
{
    let mut fields: Vec<Vec<u8>> = Vec::new();
    let mut cur: Vec<u8> = Vec::new();
    proof {
        assert(line@.take(0) =~= Seq::<u8>::empty());
        assert(split_fields(Seq::<u8>::empty()) =~~= seq![Seq::<u8>::empty()]);
        assert(fields@.map_values(|f: Vec<u8>| f@).push(cur@) =~~= seq![Seq::<u8>::empty()]);
    }
    let mut i: usize = 0;
    while i < line.len()
        invariant
            i <= line@.len(),
            split_fields(line@.take(i as int)) == fields@.map_values(|f: Vec<u8>| f@).push(cur@),
        decreases line@.len() - i,
    {
        let ghost pre = line@.take(i as int);
        let ghost mv = fields@.map_values(|f: Vec<u8>| f@);
        let ghost oc = cur@;
        let b = line[i];
        proof {
            assert(line@.take(i + 1) =~= pre + seq![b]);
        }
        if b == 44 {
            proof {
                lemma_split_snoc_comma(pre);
            }
            fields.push(cur);
            cur = Vec::new();
            proof {
                assert(fields@.map_values(|f: Vec<u8>| f@) =~~= mv.push(oc));
                assert(split_fields(line@.take(i + 1)) =~~= mv.push(oc).push(cur@));
            }
        } else {
            proof {
                lemma_split_snoc_byte(pre, b);
            }
            cur.push(b);
            proof {
                assert(split_fields(pre).drop_last() =~~= mv);
                assert(split_fields(pre).last() == oc);
                assert(split_fields(line@.take(i + 1)) =~~= mv.push(cur@));
            }
        }
        i = i + 1;
    }
    proof {
        assert(line@.take(line@.len() as int) =~= line@);
    }
    let ghost mv = fields@.map_values(|f: Vec<u8>| f@);
    let ghost oc = cur@;
    fields.push(cur);
    proof {
        assert(fields@.map_values(|f: Vec<u8>| f@) =~~= mv.push(oc));
    }
    fields
}

/// Join fields with commas, exactly as `join_fields` does.
fn join_commas(fields: &Vec<Vec<u8>>) -> (out: Vec<u8>)
    requires
        fields@.len() >= 1,
    ensures
        out@ == join_fields(fields@.map_values(|f: Vec<u8>| f@)),
{
    let ghost mv = fields@.map_values(|f: Vec<u8>| f@);
    let mut out = copy_bytes(&fields[0]);
    proof {
        assert(mv.take(1) =~~= seq![mv[0]]);
        assert(join_fields(mv.take(1)) == mv[0]);
    }
    let mut k: usize = 1;
    while k < fields.len()
        invariant
            1 <= k <= fields@.len(),
            mv == fields@.map_values(|f: Vec<u8>| f@),
            out@ == join_fields(mv.take(k as int)),
        decreases fields@.len() - k,
    {
        out.push(44);
        push_all(&mut out, &fields[k]);
        proof {
            lemma_join_push(mv.take(k as int), mv[k as int]);
            assert(mv.take(k + 1) =~~= mv.take(k as int).push(mv[k as int]));
            assert(out@ =~= join_fields(mv.take(k as int)) + seq![44u8] + mv[k as int]);
        }
        k = k + 1;
    }
    proof {
        assert(mv.take(mv.len() as int) =~~= mv);
    }
    out
}

/// The five derived columns of one data row, pre-formatted as text: the
/// two time-speedup ratios, the two position-efficiency ratios, and the
/// theoretical base-2 logarithm of the input size.
#[derive(Clone, Debug)]
pub struct DerivedColumns {
    pub time_speedup_avg: Vec<u8>,
    pub time_speedup_worst: Vec<u8>,
    pub position_efficiency_avg: Vec<u8>,
    pub position_efficiency_worst: Vec<u8>,
    pub theoretical_log2: Vec<u8>,
}

/// Derived-column text may hold neither the field separator nor the row
/// terminator.
pub open spec fn derived_columns_ok(d: DerivedColumns) -> bool {
    &&& comma_free(d.time_speedup_avg@) && newline_free(d.time_speedup_avg@)
    &&& comma_free(d.time_speedup_worst@) && newline_free(d.time_speedup_worst@)
    &&& comma_free(d.position_efficiency_avg@) && newline_free(d.position_efficiency_avg@)
    &&& comma_free(d.position_efficiency_worst@) && newline_free(d.position_efficiency_worst@)
    &&& comma_free(d.theoretical_log2@) && newline_free(d.theoretical_log2@)
}

/// The 14 fields of one data row, in file order: the input size, the four
/// raw times, the four raw comparison counts, then the five derived texts.
pub open spec fn report_fields(r: BenchmarkResults, d: DerivedColumns) -> Seq<Seq<u8>> {
    seq![
        dec_digits(r.size as nat),
        dec_digits(r.sequential_avg_case.execution_time_ns as nat),
        dec_digits(r.sequential_worst_case.execution_time_ns as nat),
        dec_digits(r.binary_avg_case.execution_time_ns as nat),
        dec_digits(r.binary_worst_case.execution_time_ns as nat),
        dec_digits(r.sequential_avg_case.positions_visited as nat),
        dec_digits(r.sequential_worst_case.positions_visited as nat),
        dec_digits(r.binary_avg_case.positions_visited as nat),
        dec_digits(r.binary_worst_case.positions_visited as nat),
        d.time_speedup_avg@,
        d.time_speedup_worst@,
        d.position_efficiency_avg@,
        d.position_efficiency_worst@,
        d.theoretical_log2@,
    ]
}

/// One data row: the 14 fields joined by commas, terminated by a newline.
pub open spec fn report_row_bytes(r: BenchmarkResults, d: DerivedColumns) -> Seq<u8> {
    join_fields(report_fields(r, d)) + seq![10u8]
}

/// A data row read back from the file: the nine raw integer columns and
/// the five derived text columns.
#[derive(Clone, Debug)]
pub struct ParsedRow {
    pub size: u128,
    pub seq_avg_time_ns: u128,
    pub seq_worst_time_ns: u128,
    pub bin_avg_time_ns: u128,
    pub bin_worst_time_ns: u128,
    pub seq_avg_positions: u128,
    pub seq_worst_positions: u128,
    pub bin_avg_positions: u128,
    pub bin_worst_positions: u128,
    pub time_speedup_avg: Vec<u8>,
    pub time_speedup_worst: Vec<u8>,
    pub position_efficiency_avg: Vec<u8>,
    pub position_efficiency_worst: Vec<u8>,
    pub theoretical_log2: Vec<u8>,
}

/// The integer column of a parsed row at position `k` of the file order.
pub open spec fn parsed_int(p: ParsedRow, k: int) -> u128 {
    if k == 0 {
        p.size
    } else if k == 1 {
        p.seq_avg_time_ns
    } else if k == 2 {
        p.seq_worst_time_ns
    } else if k == 3 {
        p.bin_avg_time_ns
    } else if k == 4 {
        p.bin_worst_time_ns
    } else if k == 5 {
        p.seq_avg_positions
    } else if k == 6 {
        p.seq_worst_positions
    } else if k == 7 {
        p.bin_avg_positions
    } else {
        p.bin_worst_positions
    }
}

pub open spec fn parsed_fields(p: ParsedRow) -> Seq<Seq<u8>> {
    seq![
        dec_digits(p.size as nat),
        dec_digits(p.seq_avg_time_ns as nat),
        dec_digits(p.seq_worst_time_ns as nat),
        dec_digits(p.bin_avg_time_ns as nat),
        dec_digits(p.bin_worst_time_ns as nat),
        dec_digits(p.seq_avg_positions as nat),
        dec_digits(p.seq_worst_positions as nat),
        dec_digits(p.bin_avg_positions as nat),
        dec_digits(p.bin_worst_positions as nat),
        p.time_speedup_avg@,
        p.time_speedup_worst@,
        p.position_efficiency_avg@,
        p.position_efficiency_worst@,
        p.theoretical_log2@,
    ]
}

pub open spec fn parsed_row_ok(p: ParsedRow) -> bool {
    &&& comma_free(p.time_speedup_avg@) && newline_free(p.time_speedup_avg@)
    &&& comma_free(p.time_speedup_worst@) && newline_free(p.time_speedup_worst@)
    &&& comma_free(p.position_efficiency_avg@) && newline_free(p.position_efficiency_avg@)
    &&& comma_free(p.position_efficiency_worst@) && newline_free(p.position_efficiency_worst@)
    &&& comma_free(p.theoretical_log2@) && newline_free(p.theoretical_log2@)
}

/// The bytes a parsed row stands for.
pub open spec fn parsed_row_bytes(p: ParsedRow) -> Seq<u8> {
    join_fields(parsed_fields(p)) + seq![10u8]
}

proof fn lemma_dec_field_text(n: nat)
    ensures
        comma_free(dec_digits(n)),
        newline_free(dec_digits(n)),
{
    lemma_dec_digits_shape(n);
    assert forall|i: int| 0 <= i < dec_digits(n).len() implies #[trigger] dec_digits(n)[i] != 44
        && dec_digits(n)[i] != 10 by {
        assert(48 <= dec_digits(n)[i] <= 57);
    }
}

proof fn lemma_parsed_fields_wf(p: ParsedRow)
    requires
        parsed_row_ok(p),
    ensures
        forall|k: int|
            0 <= k < parsed_fields(p).len() ==> comma_free(#[trigger] parsed_fields(p)[k])
                && newline_free(parsed_fields(p)[k]),
{
    let fs = parsed_fields(p);
    assert forall|k: int| 0 <= k < fs.len() implies comma_free(#[trigger] fs[k]) && newline_free(
        fs[k],
    ) by {
        if k < 9 {
            lemma_dec_field_text(parsed_int(p, k) as nat);
            assert(fs[k] == dec_digits(parsed_int(p, k) as nat));
        }
    }
}


proof fn lemma_report_fields_wf(r: BenchmarkResults, d: DerivedColumns)
    requires
        derived_columns_ok(d),
    ensures
        forall|k: int|
            0 <= k < report_fields(r, d).len() ==> comma_free(#[trigger] report_fields(r, d)[k])
                && newline_free(report_fields(r, d)[k]),
{
    let fs = report_fields(r, d);
    assert forall|k: int| 0 <= k < fs.len() implies comma_free(#[trigger] fs[k]) && newline_free(
        fs[k],
    ) by {
        if k == 0 {
            lemma_dec_field_text(r.size as nat);
        } else if k == 1 {
            lemma_dec_field_text(r.sequential_avg_case.execution_time_ns as nat);
        } else if k == 2 {
            lemma_dec_field_text(r.sequential_worst_case.execution_time_ns as nat);
        } else if k == 3 {
            lemma_dec_field_text(r.binary_avg_case.execution_time_ns as nat);
        } else if k == 4 {
            lemma_dec_field_text(r.binary_worst_case.execution_time_ns as nat);
        } else if k == 5 {
            lemma_dec_field_text(r.sequential_avg_case.positions_visited as nat);
        } else if k == 6 {
            lemma_dec_field_text(r.sequential_worst_case.positions_visited as nat);
        } else if k == 7 {
            lemma_dec_field_text(r.binary_avg_case.positions_visited as nat);
        } else if k == 8 {
            lemma_dec_field_text(r.binary_worst_case.positions_visited as nat);
        }
    }
}

proof fn lemma_wf_row_structure(line: Seq<u8>, p: ParsedRow)
    requires
        parsed_row_ok(p),
        line == parsed_row_bytes(p),
    ensures
        line.len() >= 1,
        line[line.len() - 1] == 10,
        newline_free(line.take(line.len() - 1)),
        split_fields(line.take(line.len() - 1)) == parsed_fields(p),
{
    let fs = parsed_fields(p);
    lemma_parsed_fields_wf(p);
    lemma_join_newline_free(fs);
    lemma_split_of_join(fs);
    assert(line[line.len() - 1] == 10);
    assert(line.take(line.len() - 1) =~= join_fields(fs));
}

proof fn lemma_row_completeness_int(line: Seq<u8>, flds: Seq<Seq<u8>>, k: int)
    requires
        0 <= k < 9,
        line.len() >= 1,
        flds == split_fields(line.take(line.len() - 1)),
        forall|m: nat| m <= u128::MAX ==> flds[k] != dec_digits(m),
    ensures
        forall|p: ParsedRow| parsed_row_ok(p) ==> line != parsed_row_bytes(p),
{
    assert forall|p: ParsedRow| parsed_row_ok(p) implies line != parsed_row_bytes(p) by {
        if line == parsed_row_bytes(p) {
            lemma_wf_row_structure(line, p);
            assert(parsed_fields(p)[k] == dec_digits(parsed_int(p, k) as nat));
            assert(parsed_int(p, k) as nat <= u128::MAX);
            assert(flds[k] != dec_digits(parsed_int(p, k) as nat));
            assert(false);
        }
    }
}

/// One data row of the tabular file, rendered as bytes.
pub fn format_report_row(r: &BenchmarkResults, d: &DerivedColumns) -> (out: Vec<u8>)
    ensures
        out@ == report_row_bytes(*r, *d),
{
    let mut fields: Vec<Vec<u8>> = Vec::new();
    fields.push(fmt_u128(r.size as u128));
    fields.push(fmt_u128(r.sequential_avg_case.execution_time_ns));
    fields.push(fmt_u128(r.sequential_worst_case.execution_time_ns));
    fields.push(fmt_u128(r.binary_avg_case.execution_time_ns));
    fields.push(fmt_u128(r.binary_worst_case.execution_time_ns));
    fields.push(fmt_u128(r.sequential_avg_case.positions_visited as u128));
    fields.push(fmt_u128(r.sequential_worst_case.positions_visited as u128));
    fields.push(fmt_u128(r.binary_avg_case.positions_visited as u128));
    fields.push(fmt_u128(r.binary_worst_case.positions_visited as u128));
    fields.push(copy_bytes(&d.time_speedup_avg));
    fields.push(copy_bytes(&d.time_speedup_worst));
    fields.push(copy_bytes(&d.position_efficiency_avg));
    fields.push(copy_bytes(&d.position_efficiency_worst));
    fields.push(copy_bytes(&d.theoretical_log2));
    proof {
        assert(fields@.map_values(|f: Vec<u8>| f@) =~~= report_fields(*r, *d));
    }
    let mut out = join_commas(&fields);
    out.push(10);
    proof {
        assert(out@ =~= report_row_bytes(*r, *d));
    }
    out
}

/// Parse one data row. It succeeds on exactly the byte strings that a
/// well-formed row renders to, and then returns exactly the fields the row
/// was rendered from.
pub fn parse_report_row(line: &Vec<u8>) -> (r: Option<ParsedRow>)
    ensures
        match r {
            Some(p) => parsed_row_ok(p) && line@ == parsed_row_bytes(p),
            None => forall|p: ParsedRow| parsed_row_ok(p) ==> line@ != parsed_row_bytes(p),
        },
{
    let n = line.len();
    if n == 0 || line[n - 1] != 10 {
        proof {
            assert forall|p: ParsedRow| parsed_row_ok(p) implies line@ != parsed_row_bytes(p) by {
                if line@ == parsed_row_bytes(p) {
                    lemma_wf_row_structure(line@, p);
                }
            }
        }
        return None;
    }
    let mut body: Vec<u8> = Vec::new();
    let mut i: usize = 0;
    while i < n - 1
        invariant
            n == line@.len(),
            1 <= n,
            line@[n - 1] == 10,
            i <= n - 1,
            body@ == line@.take(i as int),
            newline_free(body@),
        decreases n - 1 - i,
    {
        let b = line[i];
        if b == 10 {
            proof {
                assert forall|p: ParsedRow| parsed_row_ok(p) implies line@ != parsed_row_bytes(
                    p,
                ) by {
                    if line@ == parsed_row_bytes(p) {
                        lemma_wf_row_structure(line@, p);
                        assert(line@.take(n - 1)[i as int] == 10);
                    }
                }
            }
            return None;
        }
        body.push(b);
        proof {
            assert(line@.take(i + 1) =~= line@.take(i as int).push(b));
        }
        i = i + 1;
    }
    proof {
        assert(body@ =~= line@.take(n - 1));
    }
    let fields = split_commas(&body);
    let ghost sf = split_fields(body@);
    if fields.len() != 14 {
        proof {
            assert forall|p: ParsedRow| parsed_row_ok(p) implies line@ != parsed_row_bytes(p) by {
                if line@ == parsed_row_bytes(p) {
                    lemma_wf_row_structure(line@, p);
                    assert(sf == parsed_fields(p));
                    assert(fields@.map_values(|f: Vec<u8>| f@).len() == fields@.len());
                }
            }
        }
        return None;
    }
    proof {
        assert(sf.len() == 14);
        assert(sf[0] == fields@[0]@ && sf[1] == fields@[1]@ && sf[2] == fields@[2]@ && sf[3]
            == fields@[3]@ && sf[4] == fields@[4]@ && sf[5] == fields@[5]@ && sf[6] == fields@[6]@
            && sf[7] == fields@[7]@ && sf[8] == fields@[8]@ && sf[9] == fields@[9]@ && sf[10]
            == fields@[10]@ && sf[11] == fields@[11]@ && sf[12] == fields@[12]@ && sf[13]
            == fields@[13]@);
    }
    let v0 = match parse_u128(&fields[0]) {
        Some(v) => v,
        None => {
            proof {
                lemma_row_completeness_int(line@, sf, 0);
            }
            return None;
        },
    };
    let v1 = match parse_u128(&fields[1]) {
        Some(v) => v,
        None => {
            proof {
                lemma_row_completeness_int(line@, sf, 1);
            }
            return None;
        },
    };
    let v2 = match parse_u128(&fields[2]) {
        Some(v) => v,
        None => {
            proof {
                lemma_row_completeness_int(line@, sf, 2);
            }
            return None;
        },
    };
    let v3 = match parse_u128(&fields[3]) {
        Some(v) => v,
        None => {
            proof {
                lemma_row_completeness_int(line@, sf, 3);
            }
            return None;
        },
    };
    let v4 = match parse_u128(&fields[4]) {
        Some(v) => v,
        None => {
            proof {
                lemma_row_completeness_int(line@, sf, 4);
            }
            return None;
        },
    };
    let v5 = match parse_u128(&fields[5]) {
        Some(v) => v,
        None => {
            proof {
                lemma_row_completeness_int(line@, sf, 5);
            }
            return None;
        },
    };
    let v6 = match parse_u128(&fields[6]) {
        Some(v) => v,
        None => {
            proof {
                lemma_row_completeness_int(line@, sf, 6);
            }
            return None;
        },
    };
    let v7 = match parse_u128(&fields[7]) {
        Some(v) => v,
        None => {
            proof {
                lemma_row_completeness_int(line@, sf, 7);
            }
            return None;
        },
    };
    let v8 = match parse_u128(&fields[8]) {
        Some(v) => v,
        None => {
            proof {
                lemma_row_completeness_int(line@, sf, 8);
            }
            return None;
        },
    };
    let p = ParsedRow {
        size: v0,
        seq_avg_time_ns: v1,
        seq_worst_time_ns: v2,
        bin_avg_time_ns: v3,
        bin_worst_time_ns: v4,
        seq_avg_positions: v5,
        seq_worst_positions: v6,
        bin_avg_positions: v7,
        bin_worst_positions: v8,
        time_speedup_avg: copy_bytes(&fields[9]),
        time_speedup_worst: copy_bytes(&fields[10]),
        position_efficiency_avg: copy_bytes(&fields[11]),
        position_efficiency_worst: copy_bytes(&fields[12]),
        theoretical_log2: copy_bytes(&fields[13]),
    };
    proof {
        lemma_split_fields_wf(body@);
        assert(parsed_fields(p) =~~= sf);
        lemma_join_of_split(body@);
        assert(join_fields(parsed_fields(p)) == body@);
        assert(line@ =~= body@ + seq![10u8]);
    }
    Some(p)
}

/// Round-trip law: a rendered data row loses no information. Two field
/// sets that render to the same row bytes agree on every serialized field,
/// so parsing a rendered row recovers exactly the raw integer columns and
/// the derived texts that were written.
pub proof fn lemma_row_encoding_injective(r: BenchmarkResults, d: DerivedColumns, p: ParsedRow)
    requires
        derived_columns_ok(d),
        parsed_row_ok(p),
        report_row_bytes(r, d) == parsed_row_bytes(p),
    ensures
        p.size == r.size as u128,
        p.seq_avg_time_ns == r.sequential_avg_case.execution_time_ns,
        p.seq_worst_time_ns == r.sequential_worst_case.execution_time_ns,
        p.bin_avg_time_ns == r.binary_avg_case.execution_time_ns,
        p.bin_worst_time_ns == r.binary_worst_case.execution_time_ns,
        p.seq_avg_positions == r.sequential_avg_case.positions_visited as u128,
        p.seq_worst_positions == r.sequential_worst_case.positions_visited as u128,
        p.bin_avg_positions == r.binary_avg_case.positions_visited as u128,
        p.bin_worst_positions == r.binary_worst_case.positions_visited as u128,
        p.time_speedup_avg@ == d.time_speedup_avg@,
        p.time_speedup_worst@ == d.time_speedup_worst@,
        p.position_efficiency_avg@ == d.position_efficiency_avg@,
        p.position_efficiency_worst@ == d.position_efficiency_worst@,
        p.theoretical_log2@ == d.theoretical_log2@,
{
    let fs1 = report_fields(r, d);
    let fs2 = parsed_fields(p);
    lemma_report_fields_wf(r, d);
    lemma_parsed_fields_wf(p);
    let row = report_row_bytes(r, d);
    assert(join_fields(fs1) =~= row.take(row.len() - 1));
    assert(join_fields(fs2) =~= row.take(row.len() - 1));
    lemma_split_of_join(fs1);
    lemma_split_of_join(fs2);
    assert(fs1 =~~= fs2);
    lemma_dec_val_of_digits(r.size as nat);
    lemma_dec_val_of_digits(p.size as nat);
    assert(fs1[0] == fs2[0]);
    lemma_dec_val_of_digits(r.sequential_avg_case.execution_time_ns as nat);
    lemma_dec_val_of_digits(p.seq_avg_time_ns as nat);
    assert(fs1[1] == fs2[1]);
    lemma_dec_val_of_digits(r.sequential_worst_case.execution_time_ns as nat);
    lemma_dec_val_of_digits(p.seq_worst_time_ns as nat);
    assert(fs1[2] == fs2[2]);
    lemma_dec_val_of_digits(r.binary_avg_case.execution_time_ns as nat);
    lemma_dec_val_of_digits(p.bin_avg_time_ns as nat);
    assert(fs1[3] == fs2[3]);
    lemma_dec_val_of_digits(r.binary_worst_case.execution_time_ns as nat);
    lemma_dec_val_of_digits(p.bin_worst_time_ns as nat);
    assert(fs1[4] == fs2[4]);
    lemma_dec_val_of_digits(r.sequential_avg_case.positions_visited as nat);
    lemma_dec_val_of_digits(p.seq_avg_positions as nat);
    assert(fs1[5] == fs2[5]);
    lemma_dec_val_of_digits(r.sequential_worst_case.positions_visited as nat);
    lemma_dec_val_of_digits(p.seq_worst_positions as nat);
    assert(fs1[6] == fs2[6]);
    lemma_dec_val_of_digits(r.binary_avg_case.positions_visited as nat);
    lemma_dec_val_of_digits(p.bin_avg_positions as nat);
    assert(fs1[7] == fs2[7]);
    lemma_dec_val_of_digits(r.binary_worst_case.positions_visited as nat);
    lemma_dec_val_of_digits(p.bin_worst_positions as nat);
    assert(fs1[8] == fs2[8]);
    assert(fs1[9] == fs2[9]);
    assert(fs1[10] == fs2[10]);
    assert(fs1[11] == fs2[11]);
    assert(fs1[12] == fs2[12]);
    assert(fs1[13] == fs2[13]);
}


/// The header line's column names, in file order, without the newline.
pub open spec fn csv_header_bytes() -> Seq<u8> {
    "Size,Seq_Avg_Time_ns,Seq_Worst_Time_ns,Bin_Avg_Time_ns,Bin_Worst_Time_ns,Seq_Avg_Positions,Seq_Worst_Positions,Bin_Avg_Positions,Bin_Worst_Positions,Time_Speedup_Avg,Time_Speedup_Worst,Position_Efficiency_Avg,Position_Efficiency_Worst,Theoretical_Log2".spec_bytes()
}

/// The header line of the tabular file.
pub fn csv_header() -> (r: Vec<u8>)
    ensures
        r@ == csv_header_bytes(),
{
    "Size,Seq_Avg_Time_ns,Seq_Worst_Time_ns,Bin_Avg_Time_ns,Bin_Worst_Time_ns,Seq_Avg_Positions,Seq_Worst_Positions,Bin_Avg_Positions,Bin_Worst_Positions,Time_Speedup_Avg,Time_Speedup_Worst,Position_Efficiency_Avg,Position_Efficiency_Worst,Theoretical_Log2".as_bytes_vec()
}

/// The data rows, in report order.
pub open spec fn csv_rows_bytes(rs: Seq<BenchmarkResults>, ds: Seq<DerivedColumns>) -> Seq<u8>
    decreases rs.len(),
{
    if rs.len() == 0 {
        Seq::empty()
    } else {
        report_row_bytes(rs[0], ds[0]) + csv_rows_bytes(rs.drop_first(), ds.drop_first())
    }
}

/// The whole tabular file: one header line, then one data row per report.
/// With no reports the file is the header line alone.
pub open spec fn csv_file_bytes(rs: Seq<BenchmarkResults>, ds: Seq<DerivedColumns>) -> Seq<u8> {
    csv_header_bytes() + seq![10u8] + csv_rows_bytes(rs, ds)
}

proof fn lemma_csv_rows_snoc(rs: Seq<BenchmarkResults>, ds: Seq<DerivedColumns>, i: int)
    requires
        1 <= i <= rs.len(),
        rs.len() == ds.len(),
    ensures
        csv_rows_bytes(rs.take(i), ds.take(i)) == csv_rows_bytes(rs.take(i - 1), ds.take(i - 1))
            + report_row_bytes(rs[i - 1], ds[i - 1]),
    decreases i,
{
    if i == 1 {
        assert(rs.take(1).drop_first() =~= Seq::<BenchmarkResults>::empty());
        assert(ds.take(1).drop_first() =~= Seq::<DerivedColumns>::empty());
        assert(rs.take(0) =~= Seq::<BenchmarkResults>::empty());
        assert(ds.take(0) =~= Seq::<DerivedColumns>::empty());
        assert(csv_rows_bytes(
            Seq::<BenchmarkResults>::empty(),
            Seq::<DerivedColumns>::empty(),
        ) =~= Seq::<u8>::empty());
        assert(rs.take(1)[0] == rs[0] && ds.take(1)[0] == ds[0]);
        assert(csv_rows_bytes(rs.take(1), ds.take(1)) =~= csv_rows_bytes(rs.take(0), ds.take(0))
            + report_row_bytes(rs[0], ds[0]));
    } else {
        lemma_csv_rows_snoc(rs.drop_first(), ds.drop_first(), i - 1);
        assert(rs.take(i).drop_first() =~= rs.drop_first().take(i - 1));
        assert(ds.take(i).drop_first() =~= ds.drop_first().take(i - 1));
        assert(rs.take(i - 1).drop_first() =~= rs.drop_first().take(i - 2));
        assert(ds.take(i - 1).drop_first() =~= ds.drop_first().take(i - 2));
        assert(rs.take(i)[0] == rs[0] && ds.take(i)[0] == ds[0]);
        assert(rs.take(i - 1)[0] == rs[0] && ds.take(i - 1)[0] == ds[0]);
        assert(rs.drop_first()[i - 2] == rs[i - 1] && ds.drop_first()[i - 2] == ds[i - 1]);
        assert(csv_rows_bytes(rs.take(i), ds.take(i)) =~= csv_rows_bytes(
            rs.take(i - 1),
            ds.take(i - 1),
        ) + report_row_bytes(rs[i - 1], ds[i - 1]));
    }
}

/// Render the whole tabular file for the given reports and their derived
/// columns, pairwise in order.
pub fn render_csv(reports: &Vec<BenchmarkResults>, derived: &Vec<DerivedColumns>) -> (out: Vec<u8>)
    requires
        reports@.len() == derived@.len(),
    ensures
        out@ == csv_file_bytes(reports@, derived@),
{
    let mut out = csv_header();
    out.push(10);
    proof {
        assert(reports@.take(0) =~= Seq::<BenchmarkResults>::empty());
        assert(derived@.take(0) =~= Seq::<DerivedColumns>::empty());
        assert(out@ =~= csv_header_bytes() + seq![10u8] + csv_rows_bytes(
            reports@.take(0),
            derived@.take(0),
        ));
    }
    let mut i: usize = 0;
    while i < reports.len()
        invariant
            i <= reports@.len(),
            reports@.len() == derived@.len(),
            out@ == csv_header_bytes() + seq![10u8] + csv_rows_bytes(
                reports@.take(i as int),
                derived@.take(i as int),
            ),
        decreases reports@.len() - i,
    {
        let row = format_report_row(&reports[i], &derived[i]);
        push_all(&mut out, &row);
        i = i + 1;
        proof {
            lemma_csv_rows_snoc(reports@, derived@, i as int);
            assert(out@ =~= csv_header_bytes() + seq![10u8] + csv_rows_bytes(
                reports@.take(i as int),
                derived@.take(i as int),
            ));
        }
    }
    proof {
        assert(reports@.take(reports@.len() as int) =~= reports@);
        assert(derived@.take(derived@.len() as int) =~= derived@);
    }
    out
}

} // verus!
