//! Proofs about the Bencode model: the ordering laws of the canonical
//! dictionary, the decimal-digit laws, and the laws relating the
//! specification-level parser and encoder, including the round-trip law.

use vstd::prelude::*;

use super::model::{
    all_digits, at_least_one, benc_view, build_dict, build_dict_from, dec_digits, dec_value,
    dict_get, dict_insert, dict_sorted, find_byte, is_bdigit, lex_lt, spec_encode,
    spec_encode_items, spec_encode_pairs, spec_encode_str, spec_parse_any, spec_parse_dict,
    spec_parse_int, spec_parse_items, spec_parse_list, spec_parse_pairs, spec_parse_str,
    spec_parse_usize, wf_value, BencV,
};
use super::parse::ParseError;
use super::Benc;

verus! {

/// `lex_lt` is transitive.
pub proof fn lemma_lex_lt_trans(a: Seq<u8>, b: Seq<u8>, c: Seq<u8>)
    requires
        lex_lt(a, b),
        lex_lt(b, c),
    ensures
        lex_lt(a, c),
    decreases a.len(),
{
    if a.len() == 0 {
    } else if a[0] < b[0] || b[0] < c[0] {
    } else {
        lemma_lex_lt_trans(a.skip(1), b.skip(1), c.skip(1));
    }
}

/// `lex_lt` is connex: two byte sequences are ordered one way or the other,
/// or they are equal.
pub proof fn lemma_lex_lt_connex(a: Seq<u8>, b: Seq<u8>)
    ensures
        lex_lt(a, b) || lex_lt(b, a) || a == b,
    decreases a.len(),
{
    if a.len() == 0 && b.len() == 0 {
        assert(a =~= b);
    } else if a.len() == 0 || b.len() == 0 {
    } else if a[0] == b[0] {
        lemma_lex_lt_connex(a.skip(1), b.skip(1));
        if a.skip(1) == b.skip(1) {
            assert(a.skip(1).len() == a.len() - 1);
            assert(b.skip(1).len() == b.len() - 1);
            assert(a.len() == b.len());
            assert forall|i: int| 0 <= i < a.len() implies a[i] == b[i] by {
                if i >= 1 {
                    assert(a[i] == a.skip(1)[i - 1]);
                    assert(b[i] == b.skip(1)[i - 1]);
                }
            }
            assert(a =~= b);
        }
    }
}

/// `lex_lt` is irreflexive.
pub proof fn lemma_lex_lt_irrefl(a: Seq<u8>)
    ensures
        !lex_lt(a, a),
    decreases a.len(),
{
    if a.len() > 0 {
        lemma_lex_lt_irrefl(a.skip(1));
    }
}

/// Every entry after an insertion is the inserted pair or one of the old ones.
pub proof fn lemma_dict_insert_entries(d: Seq<(Seq<u8>, BencV)>, k: Seq<u8>, v: BencV)
    ensures
        forall|i: int|
            0 <= i < dict_insert(d, k, v).len() ==> #[trigger] dict_insert(d, k, v)[i] == (k, v)
                || d.contains(dict_insert(d, k, v)[i]),
    decreases d.len(),
{
    if d.len() == 0 {
    } else if lex_lt(k, d[0].0) {
    } else if k == d[0].0 {
        assert(forall|j: int| 0 <= j < d.skip(1).len() ==> d.contains(#[trigger] d.skip(1)[j]));
    } else {
        lemma_dict_insert_entries(d.skip(1), k, v);
        assert(forall|j: int| 0 <= j < d.skip(1).len() ==> d.contains(#[trigger] d.skip(1)[j]));
        assert forall|i: int| 0 <= i < dict_insert(d, k, v).len() implies #[trigger] dict_insert(
            d,
            k,
            v,
        )[i] == (k, v) || d.contains(dict_insert(d, k, v)[i]) by {
            if i == 0 {
                assert(d.contains(d[0]));
            } else {
                let e = dict_insert(d.skip(1), k, v)[i - 1];
                assert(dict_insert(d, k, v)[i] == e);
                if e != (k, v) {
                    assert(d.skip(1).contains(e));
                    let j = choose|j: int| 0 <= j < d.skip(1).len() && d.skip(1)[j] == e;
                    assert(d[j + 1] == e);
                }
            }
        }
    }
}

/// A bound below all old keys and below the new key bounds all keys after
/// the insertion.
pub proof fn lemma_dict_insert_lower(
    d: Seq<(Seq<u8>, BencV)>,
    k: Seq<u8>,
    v: BencV,
    x: Seq<u8>,
)
    requires
        lex_lt(x, k),
        forall|j: int| 0 <= j < d.len() ==> lex_lt(x, (#[trigger] d[j]).0),
    ensures
        forall|i: int|
            0 <= i < dict_insert(d, k, v).len() ==> lex_lt(x, (#[trigger] dict_insert(d, k, v)[i]).0),
    decreases d.len(),
{
    lemma_dict_insert_entries(d, k, v);
    assert forall|i: int| 0 <= i < dict_insert(d, k, v).len() implies lex_lt(
        x,
        (#[trigger] dict_insert(d, k, v)[i]).0,
    ) by {
        let e = dict_insert(d, k, v)[i];
        if e != (k, v) {
            let j = choose|j: int| 0 <= j < d.len() && d[j] == e;
        }
    }
}

/// Insertion keeps the entries strictly ascending.
pub proof fn lemma_dict_insert_sorted(d: Seq<(Seq<u8>, BencV)>, k: Seq<u8>, v: BencV)
    requires
        dict_sorted(d),
    ensures
        dict_sorted(dict_insert(d, k, v)),
    decreases d.len(),
{
    if d.len() == 0 {
    } else if lex_lt(k, d[0].0) {
        let r = dict_insert(d, k, v);
        assert forall|i: int, j: int| 0 <= i < j < r.len() implies lex_lt(
            #[trigger] r[i].0,
            #[trigger] r[j].0,
        ) by {
            if i == 0 {
                if j > 1 {
                    lemma_lex_lt_trans(k, d[0].0, d[j - 1].0);
                }
            }
        }
    } else if k == d[0].0 {
        let r = dict_insert(d, k, v);
        assert forall|i: int, j: int| 0 <= i < j < r.len() implies lex_lt(
            #[trigger] r[i].0,
            #[trigger] r[j].0,
        ) by {
            if i == 0 {
                assert(r[j].0 == d[j].0);
            }
        }
    } else {
        lemma_lex_lt_connex(k, d[0].0);
        assert(lex_lt(d[0].0, k));
        lemma_dict_insert_sorted(d.skip(1), k, v);
        lemma_dict_insert_lower(d.skip(1), k, v, d[0].0);
        let r = dict_insert(d, k, v);
        let rr = dict_insert(d.skip(1), k, v);
        assert forall|i: int, j: int| 0 <= i < j < r.len() implies lex_lt(
            #[trigger] r[i].0,
            #[trigger] r[j].0,
        ) by {
            if i == 0 {
                assert(r[j] == rr[j - 1]);
            } else {
                assert(r[i] == rr[i - 1] && r[j] == rr[j - 1]);
            }
        }
    }
}

/// Insertion preserves well-formedness of the dictionary as a whole.
pub proof fn lemma_dict_insert_wf(d: Seq<(Seq<u8>, BencV)>, k: Seq<u8>, v: BencV)
    requires
        wf_value(BencV::Dict(d)),
        k.len() <= usize::MAX,
        vstd::utf8::valid_utf8(k),
        wf_value(v),
    ensures
        wf_value(BencV::Dict(dict_insert(d, k, v))),
{
    lemma_dict_insert_sorted(d, k, v);
    lemma_dict_insert_entries(d, k, v);
    let r = dict_insert(d, k, v);
    assert forall|i: int|
        0 <= i < r.len() implies (#[trigger] r[i]).0.len() <= usize::MAX && vstd::utf8::valid_utf8(
        r[i].0,
    ) && wf_value(r[i].1) by {
        if r[i] != (k, v) {
            let j = choose|j: int| 0 <= j < d.len() && d[j] == r[i];
        }
    }
}

/// Building a dictionary from well-formed pairs yields a well-formed
/// dictionary, whatever the order of the insertions.
pub proof fn lemma_build_dict_from_wf(
    acc: Seq<(Seq<u8>, BencV)>,
    pairs: Seq<(Seq<u8>, BencV)>,
)
    requires
        wf_value(BencV::Dict(acc)),
        forall|i: int|
            0 <= i < pairs.len() ==> (#[trigger] pairs[i]).0.len() <= usize::MAX
                && vstd::utf8::valid_utf8(pairs[i].0) && wf_value(pairs[i].1),
    ensures
        wf_value(BencV::Dict(build_dict_from(acc, pairs))),
    decreases pairs.len(),
{
    if pairs.len() > 0 {
        lemma_dict_insert_wf(acc, pairs[0].0, pairs[0].1);
        assert(forall|i: int|
            0 <= i < pairs.skip(1).len() ==> #[trigger] pairs.skip(1)[i] == pairs[i + 1]);
        lemma_build_dict_from_wf(dict_insert(acc, pairs[0].0, pairs[0].1), pairs.skip(1));
    }
}

/// Appending one more pair to the parse order inserts it last.
pub proof fn lemma_build_dict_from_push(
    acc: Seq<(Seq<u8>, BencV)>,
    pairs: Seq<(Seq<u8>, BencV)>,
    p: (Seq<u8>, BencV),
)
    ensures
        build_dict_from(acc, pairs.push(p)) == dict_insert(build_dict_from(acc, pairs), p.0, p.1),
    decreases pairs.len(),
{
    let q = pairs.push(p);
    if pairs.len() == 0 {
        assert(q[0] == p);
        assert(q.skip(1) =~= Seq::<(Seq<u8>, BencV)>::empty());
        assert(build_dict_from(acc, q) == build_dict_from(dict_insert(acc, p.0, p.1), q.skip(1)));
        assert(build_dict_from(dict_insert(acc, p.0, p.1), q.skip(1)) == dict_insert(
            acc,
            p.0,
            p.1,
        ));
        assert(build_dict_from(acc, pairs) == acc);
    } else {
        assert(q[0] == pairs[0]);
        assert(q.skip(1) =~= pairs.skip(1).push(p));
        let acc1 = dict_insert(acc, pairs[0].0, pairs[0].1);
        assert(build_dict_from(acc, q) == build_dict_from(acc1, pairs.skip(1).push(p)));
        lemma_build_dict_from_push(acc1, pairs.skip(1), p);
        assert(build_dict_from(acc, pairs) == build_dict_from(acc1, pairs.skip(1)));
    }
}

/// Where the insertion lands: before the first entry whose key is not below
/// `k`, replacing it when the keys are equal.
pub proof fn lemma_dict_insert_at(d: Seq<(Seq<u8>, BencV)>, k: Seq<u8>, v: BencV, pos: int)
    requires
        dict_sorted(d),
        0 <= pos <= d.len(),
        forall|j: int| 0 <= j < pos ==> lex_lt((#[trigger] d[j]).0, k),
        pos < d.len() ==> !lex_lt(d[pos].0, k),
    ensures
        pos < d.len() && d[pos].0 == k ==> dict_insert(d, k, v) == d.take(pos).push((k, v))
            + d.skip(pos + 1),
        !(pos < d.len() && d[pos].0 == k) ==> dict_insert(d, k, v) == d.take(pos).push((k, v))
            + d.skip(pos),
    decreases d.len(),
{
    if pos == 0 {
        if d.len() == 0 {
            assert(dict_insert(d, k, v) =~= d.take(0).push((k, v)) + d.skip(0));
        } else {
            lemma_lex_lt_connex(k, d[0].0);
            if d[0].0 == k {
                assert(dict_insert(d, k, v) =~= d.take(0).push((k, v)) + d.skip(1));
            } else {
                assert(lex_lt(k, d[0].0));
                assert(dict_insert(d, k, v) =~= d.take(0).push((k, v)) + d.skip(0));
            }
        }
    } else {
        assert(lex_lt(d[0].0, k));
        lemma_lex_lt_irrefl(k);
        assert(d[0].0 != k);
        if lex_lt(k, d[0].0) {
            lemma_lex_lt_trans(k, d[0].0, k);
            assert(false);
        }
        let dd = d.skip(1);
        assert(forall|j: int| 0 <= j < dd.len() ==> dd[j] == d[j + 1]);
        lemma_dict_insert_at(dd, k, v, pos - 1);
        if pos < d.len() && d[pos].0 == k {
            assert(dd[pos - 1].0 == k);
            assert(dict_insert(d, k, v) == seq![d[0]] + (dd.take(pos - 1).push((k, v)) + dd.skip(
                pos,
            )));
            assert(dict_insert(d, k, v) =~= d.take(pos).push((k, v)) + d.skip(pos + 1));
        } else {
            assert(dict_insert(d, k, v) == seq![d[0]] + (dd.take(pos - 1).push((k, v)) + dd.skip(
                pos - 1,
            )));
            assert(dict_insert(d, k, v) =~= d.take(pos).push((k, v)) + d.skip(pos));
        }
    }
}

/// Pushing one element extends the element-wise abstraction by its view.
pub proof fn lemma_seq_view_from_push(items: Vec<Benc>, x: Benc, r: Vec<Benc>)
    requires
        r@ == items@.push(x),
    ensures
        super::model::seq_view_from(r, 0) == super::model::seq_view_from(items, 0).push(
            benc_view(x),
        ),
{
    super::model::lemma_seq_view_from(r, 0);
    super::model::lemma_seq_view_from(items, 0);
    let a = super::model::seq_view_from(r, 0);
    let b = super::model::seq_view_from(items, 0);
    assert(r@.len() == items@.len() + 1);
    assert forall|j: int| 0 <= j < a.len() implies a[j] == b.push(benc_view(x))[j] by {
        assert(a[j - 0] == benc_view(r@[j]));
        if j < items@.len() {
            assert(r@[j] == items@[j]);
            assert(b[j - 0] == benc_view(items@[j]));
        } else {
            assert(r@[j] == x);
        }
    }
    assert(a =~= b.push(benc_view(x)));
}

/// Two lists whose elements agree in the model have the same abstraction.
pub proof fn lemma_seq_view_pointwise(a: Vec<Benc>, b: Vec<Benc>)
    requires
        a@.len() == b@.len(),
        forall|j: int| 0 <= j < a@.len() ==> benc_view(#[trigger] a@[j]) == benc_view(b@[j]),
    ensures
        super::model::seq_view_from(a, 0) == super::model::seq_view_from(b, 0),
{
    super::model::lemma_seq_view_from(a, 0);
    super::model::lemma_seq_view_from(b, 0);
    let va = super::model::seq_view_from(a, 0);
    let vb = super::model::seq_view_from(b, 0);
    assert forall|j: int| 0 <= j < va.len() implies va[j] == vb[j] by {
        assert(va[j - 0] == benc_view(a@[j]));
        assert(vb[j - 0] == benc_view(b@[j]));
    }
    assert(va =~= vb);
}

/// Two dictionaries whose entries agree in the model have the same
/// abstraction.
pub proof fn lemma_map_view_pointwise(a: super::map::BMap, b: super::map::BMap)
    requires
        a.entries@.len() == b.entries@.len(),
        forall|j: int|
            0 <= j < a.entries@.len() ==> (#[trigger] a.entries@[j]).0@ == b.entries@[j].0@
                && benc_view(a.entries@[j].1) == benc_view(b.entries@[j].1),
    ensures
        super::model::map_view(a) == super::model::map_view(b),
{
    super::model::lemma_entries_view_from(a.entries, 0);
    super::model::lemma_entries_view_from(b.entries, 0);
    let va = super::model::map_view(a);
    let vb = super::model::map_view(b);
    assert forall|j: int| 0 <= j < va.len() implies va[j] == vb[j] by {
        assert(va[j - 0] == (a.entries@[j].0@, benc_view(a.entries@[j].1)));
        assert(vb[j - 0] == (b.entries@[j].0@, benc_view(b.entries@[j].1)));
    }
    assert(va =~= vb);
}

/// The decimal digits of `n` are digits, non-empty, and denote `n`.
pub proof fn lemma_dec_digits(n: int)
    requires
        n >= 0,
    ensures
        all_digits(dec_digits(n)),
        dec_digits(n).len() >= 1,
        dec_value(dec_digits(n)) == n,
    decreases n,
{
    if n < 10 {
        let s = dec_digits(n);
        assert(s.len() == 1);
        assert(s.drop_last() =~= Seq::<u8>::empty());
        assert(dec_value(s) == dec_value(Seq::<u8>::empty()) * 10 + (s.last() - 48));
    } else {
        lemma_dec_digits(n / 10);
        let prefix = dec_digits(n / 10);
        let last: u8 = (48 + n % 10) as u8;
        let s = prefix.push(last);
        assert(dec_digits(n) == s);
        assert(s.drop_last() =~= prefix);
        assert(s.last() == last);
        assert(dec_value(s) == dec_value(prefix) * 10 + (last - 48));
        vstd::arithmetic::div_mod::lemma_fundamental_div_mod(n, 10);
        assert forall|i: int| 0 <= i < s.len() implies is_bdigit(#[trigger] s[i]) by {
            if i < prefix.len() {
                assert(s[i] == prefix[i]);
            } else {
                assert(s[i] == last);
            }
        }
    }
}

/// Digit strings denote non-negative numbers.
pub proof fn lemma_dec_value_nonneg(s: Seq<u8>)
    requires
        all_digits(s),
    ensures
        dec_value(s) >= 0,
    decreases s.len(),
{
    if s.len() > 0 {
        assert(forall|i: int|
            0 <= i < s.drop_last().len() ==> is_bdigit(#[trigger] s.drop_last()[i]));
        lemma_dec_value_nonneg(s.drop_last());
    }
}

/// A digit string denotes at least as much as any of its prefixes.
pub proof fn lemma_dec_value_prefix(s: Seq<u8>, j: int)
    requires
        all_digits(s),
        0 <= j <= s.len(),
    ensures
        dec_value(s.take(j)) <= dec_value(s),
    decreases s.len() - j,
{
    assert(forall|i: int| 0 <= i < j ==> is_bdigit(#[trigger] s.take(j)[i]));
    if j == s.len() {
        assert(s.take(j) =~= s);
    } else {
        lemma_dec_value_prefix(s, j + 1);
        assert(s.take(j + 1).drop_last() =~= s.take(j));
        assert(s.take(j + 1).last() == s[j]);
        lemma_dec_value_nonneg(s.take(j));
        assert(dec_value(s.take(j + 1)) == dec_value(s.take(j)) * 10 + (s[j] - 48));
        assert(dec_value(s.take(j)) * 10 >= dec_value(s.take(j))) by {
            lemma_dec_value_nonneg(s.take(j));
        }
    }
}

/// What `find_byte` returns: the position of the first occurrence, or `None`
/// exactly when the byte does not occur.
pub proof fn lemma_find_byte(s: Seq<u8>, t: u8)
    ensures
        match find_byte(s, t) {
            Some(i) => 0 <= i < s.len() && s[i] == t && forall|j: int| 0 <= j < i ==> s[j] != t,
            None => forall|j: int| 0 <= j < s.len() ==> s[j] != t,
        },
    decreases s.len(),
{
    if s.len() > 0 && s[0] != t {
        lemma_find_byte(s.skip(1), t);
        match find_byte(s.skip(1), t) {
            Some(i) => {
                assert(s.skip(1)[i] == s[i + 1]);
                assert forall|j: int| 0 <= j < i + 1 implies s[j] != t by {
                    if j >= 1 {
                        assert(s.skip(1)[j - 1] == s[j]);
                    }
                }
            },
            None => {
                assert forall|j: int| 0 <= j < s.len() implies s[j] != t by {
                    if j >= 1 {
                        assert(s.skip(1)[j - 1] == s[j]);
                    }
                }
            },
        }
    }
}

/// Every successful parse consumes between one byte and the whole buffer,
/// and a parsed byte-string payload fits the platform word.
pub proof fn lemma_spec_parse_consumed(s: Seq<u8>)
    ensures
        spec_parse_int(s) matches Ok(p) ==> 1 <= p.1 <= s.len(),
        spec_parse_str(s) matches Ok(p) ==> 1 <= p.1 <= s.len() && p.0.len() <= usize::MAX,
        spec_parse_any(s) matches Ok(p) ==> 1 <= p.1 <= s.len(),
        spec_parse_list(s) matches Ok(p) ==> 1 <= p.1 <= s.len(),
        spec_parse_dict(s) matches Ok(p) ==> 1 <= p.1 <= s.len(),
        spec_parse_items(s) matches Ok(p) ==> 1 <= p.1 <= s.len(),
        spec_parse_pairs(s) matches Ok(p) ==> 1 <= p.1 <= s.len(),
    decreases s.len(),
{
    lemma_find_byte(s, 101u8);
    lemma_find_byte(s, 58u8);
    if s.len() > 0 {
        lemma_spec_parse_consumed(s.skip(1));
        if s[0] != 101u8 {
            match spec_parse_any(s) {
                Ok((v, off)) => {
                    let step = at_least_one(off);
                    if step < s.len() {
                        lemma_spec_parse_consumed(s.skip(step));
                    }
                },
                Err(_) => {},
            }
            match spec_parse_str(s) {
                Ok((key, koff)) => {
                    let kstep = at_least_one(koff);
                    if kstep < s.len() {
                        lemma_spec_parse_consumed(s.skip(kstep));
                        match spec_parse_any(s.skip(kstep)) {
                            Ok((v2, voff)) => {
                                let vstep = at_least_one(voff);
                                if kstep + vstep < s.len() {
                                    lemma_spec_parse_consumed(s.skip(kstep + vstep));
                                }
                            },
                            Err(_) => {},
                        }
                    }
                },
                Err(_) => {},
            }
        }
    }
}

/// Every value a successful parse returns is well formed: integers and
/// lengths fit the platform word, dictionary keys are valid UTF-8 and come
/// out strictly ascending.
#[verifier::rlimit(50)]
pub proof fn lemma_spec_parse_wf(s: Seq<u8>)
    ensures
        spec_parse_any(s) matches Ok(p) ==> wf_value(p.0),
        spec_parse_list(s) matches Ok(p) ==> wf_value(p.0),
        spec_parse_dict(s) matches Ok(p) ==> wf_value(p.0),
        spec_parse_items(s) matches Ok(p) ==> forall|i: int|
            0 <= i < p.0.len() ==> wf_value(#[trigger] p.0[i]),
        spec_parse_pairs(s) matches Ok(p) ==> forall|i: int|
            0 <= i < p.0.len() ==> ((#[trigger] p.0[i]).0.len() <= usize::MAX
                && vstd::utf8::valid_utf8(p.0[i].0) && wf_value(p.0[i].1)),
    decreases s.len(),
{
    lemma_spec_parse_consumed(s);
    if s.len() > 0 {
        lemma_spec_parse_wf(s.skip(1));
        if s[0] == 100u8 {
            match spec_parse_pairs(s.skip(1)) {
                Ok((pairs, c)) => {
                    assert(wf_value(BencV::Dict(Seq::empty())));
                    lemma_build_dict_from_wf(Seq::empty(), pairs);
                },
                Err(_) => {},
            }
        }
        assert(spec_parse_dict(s) matches Ok(p) ==> wf_value(p.0));
        assert(spec_parse_list(s) matches Ok(p) ==> wf_value(p.0));
        assert(spec_parse_any(s) matches Ok(p) ==> wf_value(p.0));
        if s[0] != 101u8 {
            match spec_parse_any(s) {
                Ok((v, off)) => {
                    let step = at_least_one(off);
                    if step < s.len() {
                        lemma_spec_parse_wf(s.skip(step));
                        match spec_parse_items(s.skip(step)) {
                            Ok((rest, c)) => {
                                assert forall|i: int|
                                    0 <= i < (seq![v] + rest).len() implies wf_value(
                                    #[trigger] (seq![v] + rest)[i],
                                ) by {
                                    if i >= 1 {
                                        assert((seq![v] + rest)[i] == rest[i - 1]);
                                    } else {
                                        assert((seq![v] + rest)[0] == v);
                                    }
                                }
                            },
                            Err(_) => {},
                        }
                    }
                },
                Err(_) => {},
            }
            match spec_parse_str(s) {
                Ok((key, koff)) => {
                    let kstep = at_least_one(koff);
                    if kstep < s.len() {
                        lemma_spec_parse_wf(s.skip(kstep));
                        lemma_spec_parse_consumed(s.skip(kstep));
                        match spec_parse_any(s.skip(kstep)) {
                            Ok((v2, voff)) => {
                                let vstep = at_least_one(voff);
                                if kstep + vstep < s.len() && vstd::utf8::valid_utf8(key) {
                                    lemma_spec_parse_wf(s.skip(kstep + vstep));
                                    match spec_parse_pairs(s.skip(kstep + vstep)) {
                                        Ok((rest, c)) => {
                                            let all = seq![(key, v2)] + rest;
                                            assert forall|i: int|
                                                0 <= i < all.len() implies ((#[trigger] all[i]).0.len()
                                                <= usize::MAX && vstd::utf8::valid_utf8(all[i].0)
                                                && wf_value(all[i].1)) by {
                                                if i >= 1 {
                                                    assert(all[i] == rest[i - 1]);
                                                } else {
                                                    assert(all[0] == (key, v2));
                                                }
                                            }
                                        },
                                        Err(_) => {},
                                    }
                                }
                            },
                            Err(_) => {},
                        }
                    }
                },
                Err(_) => {},
            }
        }
    }
}

/// Every encoding is non-empty and never starts with the terminator byte.
pub proof fn lemma_encode_first(v: BencV)
    requires
        wf_value(v),
    ensures
        spec_encode(v).len() >= 1,
        spec_encode(v)[0] != 101u8,
{
    match v {
        BencV::Int(n) => {
            assert(spec_encode(v)[0] == 105u8);
        },
        BencV::Str(b) => {
            lemma_dec_digits(b.len() as int);
            let dd = dec_digits(b.len() as int);
            assert(spec_encode(v)[0] == (dd + seq![58u8] + b)[0]);
            assert((dd + seq![58u8] + b)[0] == (dd + seq![58u8])[0]);
            assert((dd + seq![58u8])[0] == dd[0]);
            assert(is_bdigit(dd[0]));
        },
        BencV::List(items) => {
            assert(spec_encode(v)[0] == (seq![108u8] + spec_encode_items(items, 0) + seq![
                101u8,
            ])[0]);
            assert(spec_encode(v)[0] == 108u8);
        },
        BencV::Dict(d) => {
            assert(spec_encode(v)[0] == 100u8);
        },
    }
}

/// Parsing inverts encoding for a byte-string, whatever follows it.
pub proof fn lemma_parse_encode_str(b: Seq<u8>, rest: Seq<u8>)
    requires
        b.len() <= usize::MAX,
    ensures
        spec_parse_str(spec_encode_str(b) + rest) == Ok::<(Seq<u8>, int), ParseError>(
            (b, spec_encode_str(b).len() as int),
        ),
{
    let n = b.len() as int;
    lemma_dec_digits(n);
    let dd = dec_digits(n);
    let dl = dd.len() as int;
    let e = spec_encode_str(b);
    let s = e + rest;
    assert(e == dd + seq![58u8] + b);
    assert(e.len() == dl + 1 + b.len());
    assert forall|j: int| 0 <= j < dl implies s[j] == dd[j] by {
        assert(s[j] == e[j]);
        assert(e[j] == (dd + seq![58u8])[j]);
        assert((dd + seq![58u8])[j] == dd[j]);
    }
    assert(s[dl] == 58u8) by {
        assert(s[dl] == e[dl]);
        assert(e[dl] == (dd + seq![58u8])[dl]);
    }
    assert(is_bdigit(s[0]));
    lemma_find_byte(s, 58u8);
    match find_byte(s, 58u8) {
        None => {
            assert(false);
        },
        Some(k) => {
            if k < dl {
                assert(is_bdigit(s[k]));
                assert(false);
            }
            if k > dl {
                assert(s[dl] != 58u8);
                assert(false);
            }
            assert(k == dl);
        },
    }
    assert(s.subrange(0, dl) =~= dd);
    assert(spec_parse_usize(s.subrange(0, dl)) == Ok::<usize, ParseError>(b.len() as usize));
    assert(dl + n < s.len());
    assert(s.subrange(dl + 1, dl + 1 + n) =~= b) by {
        assert forall|j: int| 0 <= j < n implies s[dl + 1 + j] == b[j] by {
            assert(s[dl + 1 + j] == e[dl + 1 + j]);
            assert(e[dl + 1 + j] == b[j]);
        }
    }
}

/// Parsing inverts encoding for an integer, whatever follows it.
pub proof fn lemma_parse_encode_int(n: int, rest: Seq<u8>)
    requires
        0 <= n <= usize::MAX,
    ensures
        spec_parse_int(seq![105u8] + dec_digits(n) + seq![101u8] + rest) == Ok::<
            (usize, int),
            ParseError,
        >((n as usize, dec_digits(n).len() as int + 2)),
{
    lemma_dec_digits(n);
    let dd = dec_digits(n);
    let dl = dd.len() as int;
    let e = seq![105u8] + dd + seq![101u8];
    let s = e + rest;
    assert(s[0] == e[0]);
    assert(e[0] == 105u8);
    assert forall|j: int| 1 <= j < 1 + dl implies s[j] == dd[j - 1] by {
        assert(s[j] == e[j]);
        assert(e[j] == (seq![105u8] + dd)[j]);
        assert((seq![105u8] + dd)[j] == dd[j - 1]);
    }
    assert(s[1 + dl] == 101u8) by {
        assert(s[1 + dl] == e[1 + dl]);
        assert(e[1 + dl] == (seq![105u8] + dd + seq![101u8])[1 + dl]);
    }
    lemma_find_byte(s, 101u8);
    match find_byte(s, 101u8) {
        None => {
            assert(false);
        },
        Some(k) => {
            if 1 <= k < 1 + dl {
                assert(is_bdigit(s[k]));
                assert(false);
            }
            if k > 1 + dl {
                assert(s[1 + dl] != 101u8);
                assert(false);
            }
            assert(k == 1 + dl);
        },
    }
    assert(s.subrange(1, 1 + dl) =~= dd);
    assert(spec_parse_usize(s.subrange(1, 1 + dl)) == Ok::<usize, ParseError>(n as usize));
}

/// Building a dictionary from already strictly ascending pairs keeps them
/// as they are.
pub proof fn lemma_build_dict_sorted_id_from(
    acc: Seq<(Seq<u8>, BencV)>,
    pairs: Seq<(Seq<u8>, BencV)>,
)
    requires
        dict_sorted(acc + pairs),
    ensures
        build_dict_from(acc, pairs) == acc + pairs,
    decreases pairs.len(),
{
    if pairs.len() == 0 {
        assert(build_dict_from(acc, pairs) == acc);
        assert(acc + pairs =~= acc);
    } else {
        let k = pairs[0].0;
        let v = pairs[0].1;
        let both = acc + pairs;
        assert(both[acc.len() as int] == pairs[0]);
        assert(dict_sorted(acc)) by {
            assert forall|i: int, j: int| 0 <= i < j < acc.len() implies lex_lt(
                #[trigger] acc[i].0,
                #[trigger] acc[j].0,
            ) by {
                assert(both[i] == acc[i] && both[j] == acc[j]);
            }
        }
        assert forall|j: int| 0 <= j < acc.len() implies lex_lt((#[trigger] acc[j]).0, k) by {
            assert(both[j] == acc[j]);
        }
        lemma_dict_insert_at(acc, k, v, acc.len() as int);
        let acc1 = dict_insert(acc, k, v);
        assert(acc1 == acc.take(acc.len() as int).push((k, v)) + acc.skip(acc.len() as int));
        assert(acc1 =~= acc.push(pairs[0]));
        assert(acc.push(pairs[0]) + pairs.skip(1) =~= acc + pairs);
        lemma_build_dict_sorted_id_from(acc.push(pairs[0]), pairs.skip(1));
    }
}

/// The round-trip core: parsing an encoded well-formed value, with any
/// suffix after it, returns exactly that value and consumes exactly its
/// encoding.
#[verifier::rlimit(100)]
pub proof fn lemma_parse_encode(v: BencV, rest: Seq<u8>)
    requires
        wf_value(v),
    ensures
        spec_parse_any(spec_encode(v) + rest) == Ok::<(BencV, int), ParseError>(
            (v, spec_encode(v).len() as int),
        ),
    decreases v, 0int, 0int,
{
    let s = spec_encode(v) + rest;
    match v {
        BencV::Int(n) => {
            lemma_dec_digits(n);
            assert(s =~= seq![105u8] + dec_digits(n) + seq![101u8] + rest);
            lemma_parse_encode_int(n, rest);
            assert(s[0] == 105u8);
            assert(!is_bdigit(105u8));
        },
        BencV::Str(b) => {
            lemma_dec_digits(b.len() as int);
            lemma_parse_encode_str(b, rest);
            let e = spec_encode_str(b);
            assert(s[0] == e[0]);
            assert(e[0] == (dec_digits(b.len() as int) + seq![58u8])[0]);
            assert(e[0] == dec_digits(b.len() as int)[0]);
            assert(is_bdigit(s[0]));
        },
        BencV::List(items) => {
            let body = spec_encode_items(items, 0);
            assert(s[0] == (seq![108u8] + body + seq![101u8])[0]);
            assert(s[0] == 108u8);
            assert(s.skip(1) =~= body + seq![101u8] + rest) by {
                assert forall|j: int| 0 <= j < s.len() - 1 implies s.skip(1)[j] == (body + seq![
                    101u8,
                ] + rest)[j] by {
                    assert(s.skip(1)[j] == s[j + 1]);
                    if j < body.len() {
                        assert(s[j + 1] == spec_encode(v)[j + 1]);
                        assert(spec_encode(v)[j + 1] == (seq![108u8] + body)[j + 1]);
                    } else if j < body.len() + 1 {
                        assert(s[j + 1] == spec_encode(v)[j + 1]);
                    } else {
                        assert(s[j + 1] == rest[j + 1 - spec_encode(v).len()]);
                    }
                }
            }
            lemma_parse_encode_items(items, 0, rest);
            assert(items.skip(0) =~= items);
        },
        BencV::Dict(d) => {
            let body = spec_encode_pairs(d, 0);
            assert(s[0] == (seq![100u8] + body + seq![101u8])[0]);
            assert(s[0] == 100u8);
            assert(s.skip(1) =~= body + seq![101u8] + rest) by {
                assert forall|j: int| 0 <= j < s.len() - 1 implies s.skip(1)[j] == (body + seq![
                    101u8,
                ] + rest)[j] by {
                    assert(s.skip(1)[j] == s[j + 1]);
                    if j < body.len() {
                        assert(s[j + 1] == spec_encode(v)[j + 1]);
                        assert(spec_encode(v)[j + 1] == (seq![100u8] + body)[j + 1]);
                    } else if j < body.len() + 1 {
                        assert(s[j + 1] == spec_encode(v)[j + 1]);
                    } else {
                        assert(s[j + 1] == rest[j + 1 - spec_encode(v).len()]);
                    }
                }
            }
            lemma_parse_encode_pairs(d, 0, rest);
            assert(d.skip(0) =~= d);
            assert(dict_sorted(d.skip(0)) == dict_sorted(d));
            lemma_build_dict_sorted_id_from(Seq::empty(), d);
            assert(Seq::empty() + d =~= d);
        },
    }
}

/// Parsing the encoded elements of a list, closed by `e` and followed by
/// anything, returns exactly those elements.
#[verifier::rlimit(100)]
pub proof fn lemma_parse_encode_items(items: Seq<BencV>, i: int, rest: Seq<u8>)
    requires
        0 <= i <= items.len(),
        forall|j: int| 0 <= j < items.len() ==> wf_value(#[trigger] items[j]),
    ensures
        spec_parse_items(spec_encode_items(items, i) + seq![101u8] + rest) == Ok::<
            (Seq<BencV>, int),
            ParseError,
        >((items.skip(i), spec_encode_items(items, i).len() as int + 1)),
    decreases items, 1int, items.len() - i,
{
    let body = spec_encode_items(items, i);
    let t = body + seq![101u8] + rest;
    if i == items.len() {
        assert(body =~= Seq::<u8>::empty());
        assert(t[0] == (body + seq![101u8])[0]);
        assert(t[0] == 101u8);
        assert(items.skip(i) =~= Seq::<BencV>::empty());
    } else {
        let head = spec_encode(items[i]);
        let tail = spec_encode_items(items, i + 1);
        assert(body == head + tail);
        lemma_encode_first(items[i]);
        assert(t =~= head + (tail + seq![101u8] + rest)) by {
            assert forall|j: int| 0 <= j < t.len() implies t[j] == (head + (tail + seq![101u8]
                + rest))[j] by {
                if j < head.len() {
                    assert(t[j] == (body + seq![101u8])[j]);
                    assert((body + seq![101u8])[j] == body[j]);
                    assert(body[j] == head[j]);
                } else if j < body.len() {
                    assert(t[j] == (body + seq![101u8])[j]);
                    assert((body + seq![101u8])[j] == body[j]);
                    assert(body[j] == tail[j - head.len()]);
                } else if j == body.len() {
                    assert(t[j] == (body + seq![101u8])[j]);
                } else {
                    assert(t[j] == rest[j - body.len() - 1]);
                }
            }
        }
        lemma_parse_encode(items[i], tail + seq![101u8] + rest);
        assert(t[0] == head[0]);
        assert(t[0] != 101u8);
        assert(t.len() > head.len());
        assert(t.skip(head.len() as int) =~= tail + seq![101u8] + rest);
        lemma_parse_encode_items(items, i + 1, rest);
        assert(seq![items[i]] + items.skip(i + 1) =~= items.skip(i));
    }
}

/// Parsing the encoded entries of a dictionary, closed by `e` and followed
/// by anything, returns exactly those pairs in order.
#[verifier::rlimit(100)]
pub proof fn lemma_parse_encode_pairs(d: Seq<(Seq<u8>, BencV)>, i: int, rest: Seq<u8>)
    requires
        0 <= i <= d.len(),
        forall|j: int|
            0 <= j < d.len() ==> (#[trigger] d[j]).0.len() <= usize::MAX
                && vstd::utf8::valid_utf8(d[j].0) && wf_value(d[j].1),
    ensures
        spec_parse_pairs(spec_encode_pairs(d, i) + seq![101u8] + rest) == Ok::<
            (Seq<(Seq<u8>, BencV)>, int),
            ParseError,
        >((d.skip(i), spec_encode_pairs(d, i).len() as int + 1)),
    decreases d, 1int, d.len() - i,
{
    let body = spec_encode_pairs(d, i);
    let t = body + seq![101u8] + rest;
    if i == d.len() {
        assert(body =~= Seq::<u8>::empty());
        assert(t[0] == (body + seq![101u8])[0]);
        assert(t[0] == 101u8);
        assert(d.skip(i) =~= Seq::<(Seq<u8>, BencV)>::empty());
    } else {
        let khead = spec_encode_str(d[i].0);
        let vhead = spec_encode(d[i].1);
        let tail = spec_encode_pairs(d, i + 1);
        assert(body == khead + vhead + tail);
        lemma_dec_digits(d[i].0.len() as int);
        assert(t =~= khead + (vhead + (tail + seq![101u8] + rest))) by {
            assert forall|j: int| 0 <= j < t.len() implies t[j] == (khead + (vhead + (tail + seq![
                101u8,
            ] + rest)))[j] by {
                if j < khead.len() {
                    assert(t[j] == (body + seq![101u8])[j]);
                    assert((body + seq![101u8])[j] == body[j]);
                    assert(body[j] == (khead + vhead)[j]);
                    assert((khead + vhead)[j] == khead[j]);
                } else if j < khead.len() + vhead.len() {
                    assert(t[j] == (body + seq![101u8])[j]);
                    assert((body + seq![101u8])[j] == body[j]);
                    assert(body[j] == (khead + vhead)[j]);
                    assert((khead + vhead)[j] == vhead[j - khead.len()]);
                } else if j < body.len() {
                    assert(t[j] == (body + seq![101u8])[j]);
                    assert((body + seq![101u8])[j] == body[j]);
                    assert(body[j] == tail[j - khead.len() - vhead.len()]);
                } else if j == body.len() {
                    assert(t[j] == (body + seq![101u8])[j]);
                } else {
                    assert(t[j] == rest[j - body.len() - 1]);
                }
            }
        }
        lemma_parse_encode_str(d[i].0, vhead + (tail + seq![101u8] + rest));
        assert(t[0] == khead[0]);
        assert(khead[0] == (dec_digits(d[i].0.len() as int) + seq![58u8])[0]);
        assert(khead[0] == dec_digits(d[i].0.len() as int)[0]);
        assert(is_bdigit(t[0]));
        assert(t[0] != 101u8);
        let kl = khead.len() as int;
        assert(t.len() > kl);
        assert(t.skip(kl) =~= vhead + (tail + seq![101u8] + rest)) by {
            assert forall|j: int| 0 <= j < t.len() - kl implies t.skip(kl)[j] == (vhead + (tail
                + seq![101u8] + rest))[j] by {
                assert(t.skip(kl)[j] == t[kl + j]);
                assert(t[kl + j] == (khead + (vhead + (tail + seq![101u8] + rest)))[kl + j]);
            }
        }
        lemma_encode_first(d[i].1);
        lemma_parse_encode(d[i].1, tail + seq![101u8] + rest);
        let vl = vhead.len() as int;
        assert(t.len() > kl + vl);
        assert(t.skip(kl).skip(vl) =~= tail + seq![101u8] + rest);
        assert(t.skip(kl + vl) =~= t.skip(kl).skip(vl));
        lemma_parse_encode_pairs(d, i + 1, rest);
        assert(seq![(d[i].0, d[i].1)] + d.skip(i + 1) =~= d.skip(i));
    }
}

/// Round trip: parsing the encoding of any well-formed value yields exactly
/// that value, consuming the whole encoding.
pub proof fn lemma_round_trip(v: BencV)
    requires
        wf_value(v),
    ensures
        spec_parse_any(spec_encode(v)) == Ok::<(BencV, int), ParseError>(
            (v, spec_encode(v).len() as int),
        ),
{
    lemma_parse_encode(v, Seq::empty());
    assert(spec_encode(v) + Seq::<u8>::empty() =~= spec_encode(v));
}

/// A key occurs among the entries exactly when the lookup succeeds, and a
/// successful lookup returns an entry's value.
pub proof fn lemma_dict_get_present(d: Seq<(Seq<u8>, BencV)>, k: Seq<u8>)
    ensures
        (dict_get(d, k) is Some) <==> exists|i: int| 0 <= i < d.len() && (#[trigger] d[i]).0 == k,
        dict_get(d, k) matches Some(v) ==> exists|i: int|
            0 <= i < d.len() && #[trigger] d[i] == (k, v),
    decreases d.len(),
{
    if d.len() > 0 && d[0].0 != k {
        lemma_dict_get_present(d.skip(1), k);
        assert(forall|j: int| 0 <= j < d.skip(1).len() ==> #[trigger] d.skip(1)[j] == d[j + 1]);
        if exists|i: int| 0 <= i < d.len() && (#[trigger] d[i]).0 == k {
            let i = choose|i: int| 0 <= i < d.len() && (#[trigger] d[i]).0 == k;
            assert(d.skip(1)[i - 1].0 == k);
        }
    }
}

/// Canonical form is unique: two sorted dictionaries that agree on every
/// lookup are structurally equal, whatever order their entries were
/// inserted in.
pub proof fn lemma_sorted_dict_unique(d1: Seq<(Seq<u8>, BencV)>, d2: Seq<(Seq<u8>, BencV)>)
    requires
        dict_sorted(d1),
        dict_sorted(d2),
        forall|k: Seq<u8>| #[trigger] dict_get(d1, k) == dict_get(d2, k),
    ensures
        d1 == d2,
    decreases d1.len(),
{
    if d1.len() == 0 && d2.len() == 0 {
        assert(d1 =~= d2);
    } else if d1.len() == 0 {
        assert(dict_get(d2, d2[0].0) is Some);
        assert(dict_get(d1, d2[0].0) is None);
        assert(false);
    } else if d2.len() == 0 {
        assert(dict_get(d1, d1[0].0) is Some);
        assert(false);
    } else {
        let k1 = d1[0].0;
        let k2 = d2[0].0;
        if k1 != k2 {
            lemma_lex_lt_connex(k1, k2);
            if lex_lt(k1, k2) {
                assert(dict_get(d1, k1) is Some);
                lemma_dict_get_present(d2, k1);
                let i = choose|i: int| 0 <= i < d2.len() && (#[trigger] d2[i]).0 == k1;
                assert(i > 0);
                assert(lex_lt(k2, d2[i].0));
                lemma_lex_lt_trans(k1, k2, k1);
                lemma_lex_lt_irrefl(k1);
                assert(false);
            } else {
                assert(dict_get(d2, k2) is Some);
                lemma_dict_get_present(d1, k2);
                let i = choose|i: int| 0 <= i < d1.len() && (#[trigger] d1[i]).0 == k2;
                assert(i > 0);
                assert(lex_lt(k1, d1[i].0));
                lemma_lex_lt_trans(k2, k1, k2);
                lemma_lex_lt_irrefl(k2);
                assert(false);
            }
        }
        assert(k1 == k2);
        assert(dict_get(d1, k1) == Some(d1[0].1));
        assert(dict_get(d2, k1) == Some(d2[0].1));
        assert(d1[0] == d2[0]);
        let t1 = d1.skip(1);
        let t2 = d2.skip(1);
        assert(forall|j: int| 0 <= j < t1.len() ==> #[trigger] t1[j] == d1[j + 1]);
        assert(forall|j: int| 0 <= j < t2.len() ==> #[trigger] t2[j] == d2[j + 1]);
        assert(dict_sorted(t1));
        assert(dict_sorted(t2));
        assert forall|k: Seq<u8>| #[trigger] dict_get(t1, k) == dict_get(t2, k) by {
            if k == k1 {
                lemma_dict_get_present(t1, k);
                lemma_dict_get_present(t2, k);
                lemma_lex_lt_irrefl(k1);
                if dict_get(t1, k) is Some {
                    let i = choose|i: int| 0 <= i < t1.len() && (#[trigger] t1[i]).0 == k;
                    assert(lex_lt(d1[0].0, d1[i + 1].0));
                    assert(false);
                }
                if dict_get(t2, k) is Some {
                    let i = choose|i: int| 0 <= i < t2.len() && (#[trigger] t2[i]).0 == k;
                    assert(lex_lt(d2[0].0, d2[i + 1].0));
                    assert(false);
                }
            } else {
                assert(dict_get(d1, k) == dict_get(t1, k));
                assert(dict_get(d2, k) == dict_get(t2, k));
            }
        }
        lemma_sorted_dict_unique(t1, t2);
        assert forall|i: int| 0 <= i < d1.len() implies d1[i] == d2[i] by {
            if i >= 1 {
                assert(t1[i - 1] == d1[i]);
                assert(t2[i - 1] == d2[i]);
            }
        }
        assert(d1 =~= d2);
    }
}

/// Idempotent, canonical encoding: two sorted dictionaries with the same
/// content encode to byte-identical output, so iteration order can add no
/// nondeterminism.
pub proof fn lemma_canonical_encoding(d1: Seq<(Seq<u8>, BencV)>, d2: Seq<(Seq<u8>, BencV)>)
    requires
        dict_sorted(d1),
        dict_sorted(d2),
        forall|k: Seq<u8>| #[trigger] dict_get(d1, k) == dict_get(d2, k),
    ensures
        spec_encode(BencV::Dict(d1)) == spec_encode(BencV::Dict(d2)),
{
    lemma_sorted_dict_unique(d1, d2);
}

/// Error precedence: a malformed leading byte is reported before any other
/// validation, and a missing terminator is its own, distinct error.
pub proof fn lemma_error_precedence(s: Seq<u8>)
    ensures
        s.len() > 0 && s[0] != 105u8 ==> spec_parse_int(s) == Err::<(usize, int), ParseError>(
            ParseError::InvalidFirstByte,
        ),
        s.len() > 0 && !is_bdigit(s[0]) ==> spec_parse_str(s) == Err::<(Seq<u8>, int), ParseError>(
            ParseError::InvalidFirstByte,
        ),
        s.len() > 0 && s[0] == 105u8 && find_byte(s, 101u8) is None ==> spec_parse_int(s) == Err::<
            (usize, int),
            ParseError,
        >(ParseError::MissingTerminator),
{
}

} // verus!
