//! The JSON document that holds an aggregate.
//!
//! The document is one object with six members, in this order and without
//! white space: the five buckets `high_mild`, `high_severe`, `low_mild`,
//! `low_severe` and `normal`, each an array of whole numbers of ticks, and
//! `thresholds`, the array of the four fences in ticks, written as decimal
//! fractions. Every aggregate has one document, and only such documents
//! are read back.

use crate::decimal::{
    eighths, ends_eighths, ends_whole, expect, has_prefix, lemma_dec, lemma_parse_eighths,
    lemma_parse_eighths_sound, lemma_parse_signed, lemma_parse_signed_sound, parse_eighths,
    parse_i64, read_eighths, read_i64, signed, write_eighths, write_i64,
};
use crate::fences::{fences_fit, fences_view};
use crate::outliers::OutliersView;
use vstd::prelude::*;
use vstd::string::*;

verus! {

/// The byte `,`.
pub(crate) const COMMA: u8 = 44;

/// The byte `]`.
pub(crate) const CLOSE: u8 = 93;

/// The text of the measurements `s`, each after a comma.
pub open spec fn tail(s: Seq<i64>) -> Seq<u8>
    decreases s.len(),
{
    if s.len() == 0 {
        Seq::empty()
    } else {
        seq![44u8] + signed(s[0] as int) + tail(s.drop_first())
    }
}

/// The text of the measurements `s` with commas between them.
pub open spec fn list(s: Seq<i64>) -> Seq<u8> {
    if s.len() == 0 {
        Seq::empty()
    } else {
        signed(s[0] as int) + tail(s.drop_first())
    }
}

/// The text `open` and the measurements `s` after it.
pub open spec fn member(open: &str, s: Seq<i64>) -> Seq<u8> {
    open.spec_bytes() + list(s)
}

/// The text `open` and the fence `t`, in eighths of a tick, after it.
pub open spec fn fence(open: &str, t: int) -> Seq<u8> {
    open.spec_bytes() + eighths(t)
}

/// The five buckets of the aggregate `o` as members of the document.
pub open spec fn buckets(o: OutliersView) -> Seq<u8> {
    member("{\"high_mild\":[", o.high_mild) + member("],\"high_severe\":[", o.high_severe)
        + member("],\"low_mild\":[", o.low_mild) + member("],\"low_severe\":[", o.low_severe)
        + member("],\"normal\":[", o.normal)
}

/// The four fences `t`, in eighths of a tick, as the last member of the
/// document, up to its closing bracket.
pub open spec fn fences_member(t: (int, int, int, int)) -> Seq<u8> {
    fence("],\"thresholds\":[", t.0) + fence(",", t.1) + fence(",", t.2) + fence(",", t.3)
}

/// The document of the aggregate `o`.
pub open spec fn document(o: OutliersView) -> Seq<u8> {
    buckets(o) + fences_member(o.thresholds) + "]}".spec_bytes()
}

/// What reading a document may give: the aggregate of which `bytes` is the
/// document, or nothing where `bytes` is the document of no aggregate
/// whose fences fit 128 bits.
pub open spec fn decodes_to(bytes: Seq<u8>, r: Option<OutliersView>) -> bool {
    match r {
        Some(o) => o.storable() && document(o) == bytes,
        None => forall|o: OutliersView| o.storable() ==> document(o) != bytes,
    }
}

/// Reads measurements, each after a comma, for as long as a comma stands
/// first, and appends them to `acc`.
pub open spec fn parse_more(acc: Seq<i64>, input: Seq<u8>) -> Option<(Seq<i64>, Seq<u8>)>
    decreases input.len(),
{
    if input.len() > 0 && input[0] == 44 {
        match parse_i64(input.skip(1)) {
            Some((v, rest)) => if rest.len() < input.len() {
                parse_more(acc.push(v), rest)
            } else {
                None
            },
            None => None,
        }
    } else {
        Some((acc, input))
    }
}

/// Reads the measurements with which `input` begins: none where a closing
/// bracket stands first.
pub open spec fn parse_list(input: Seq<u8>) -> Option<(Seq<i64>, Seq<u8>)> {
    if input.len() > 0 && input[0] == 93 {
        Some((Seq::empty(), input))
    } else {
        match parse_i64(input) {
            Some((v, rest)) => parse_more(seq![v], rest),
            None => None,
        }
    }
}

/// Reads the text `open` and the measurements after it.
pub open spec fn parse_member(open: &str, input: Seq<u8>) -> Option<(Seq<i64>, Seq<u8>)> {
    if has_prefix(input, open.spec_bytes()) {
        parse_list(input.skip(open.spec_bytes().len() as int))
    } else {
        None
    }
}

/// Reads the text `open` and the fence after it.
pub open spec fn parse_fence(open: &str, input: Seq<u8>) -> Option<(int, Seq<u8>)> {
    if has_prefix(input, open.spec_bytes()) {
        parse_eighths(input.skip(open.spec_bytes().len() as int))
    } else {
        None
    }
}

/// Reads the five buckets, and leaves the fences at naught.
pub open spec fn parse_buckets(input: Seq<u8>) -> Option<(OutliersView, Seq<u8>)> {
    match parse_member("{\"high_mild\":[", input) {
        None => None,
        Some((high_mild, r1)) => match parse_member("],\"high_severe\":[", r1) {
            None => None,
            Some((high_severe, r2)) => match parse_member("],\"low_mild\":[", r2) {
                None => None,
                Some((low_mild, r3)) => match parse_member("],\"low_severe\":[", r3) {
                    None => None,
                    Some((low_severe, r4)) => match parse_member("],\"normal\":[", r4) {
                        None => None,
                        Some((normal, r5)) => Some(
                            (
                                OutliersView {
                                    low_severe,
                                    low_mild,
                                    normal,
                                    high_mild,
                                    high_severe,
                                    thresholds: (0, 0, 0, 0),
                                },
                                r5,
                            ),
                        ),
                    },
                },
            },
        },
    }
}

/// Reads the four fences.
pub open spec fn parse_thresholds(input: Seq<u8>) -> Option<((int, int, int, int), Seq<u8>)> {
    match parse_fence("],\"thresholds\":[", input) {
        None => None,
        Some((t0, r1)) => match parse_fence(",", r1) {
            None => None,
            Some((t1, r2)) => match parse_fence(",", r2) {
                None => None,
                Some((t2, r3)) => match parse_fence(",", r3) {
                    None => None,
                    Some((t3, r4)) => Some(((t0, t1, t2, t3), r4)),
                },
            },
        },
    }
}

/// Reads a whole document.
pub open spec fn parse_document(input: Seq<u8>) -> Option<OutliersView> {
    match parse_buckets(input) {
        None => None,
        Some((b, r1)) => match parse_thresholds(r1) {
            None => None,
            Some((t, r2)) => if r2 == "]}".spec_bytes() {
                Some(
                    OutliersView {
                        low_severe: b.low_severe,
                        low_mild: b.low_mild,
                        normal: b.normal,
                        high_mild: b.high_mild,
                        high_severe: b.high_severe,
                        thresholds: t,
                    },
                )
            } else {
                None
            },
        },
    }
}

/// The first byte of each text that follows a member or a fence.
proof fn lemma_literals()
    ensures
        "],\"high_severe\":[".spec_bytes().len() > 0 && "],\"high_severe\":[".spec_bytes()[0] == 93,
        "],\"low_mild\":[".spec_bytes().len() > 0 && "],\"low_mild\":[".spec_bytes()[0] == 93,
        "],\"low_severe\":[".spec_bytes().len() > 0 && "],\"low_severe\":[".spec_bytes()[0] == 93,
        "],\"normal\":[".spec_bytes().len() > 0 && "],\"normal\":[".spec_bytes()[0] == 93,
        "],\"thresholds\":[".spec_bytes().len() > 0 && "],\"thresholds\":[".spec_bytes()[0] == 93,
        ",".spec_bytes().len() > 0 && ",".spec_bytes()[0] == 44,
        "]}".spec_bytes().len() > 0 && "]}".spec_bytes()[0] == 93,
{
    reveal_strlit("],\"high_severe\":[");
    reveal_strlit("],\"low_mild\":[");
    reveal_strlit("],\"low_severe\":[");
    reveal_strlit("],\"normal\":[");
    reveal_strlit("],\"thresholds\":[");
    reveal_strlit(",");
    reveal_strlit("]}");
    is_ascii_spec_bytes("],\"high_severe\":[");
    is_ascii_spec_bytes("],\"low_mild\":[");
    is_ascii_spec_bytes("],\"low_severe\":[");
    is_ascii_spec_bytes("],\"normal\":[");
    is_ascii_spec_bytes("],\"thresholds\":[");
    is_ascii_spec_bytes(",");
    is_ascii_spec_bytes("]}");
}

/// The text of a whole number begins with a minus sign or a digit.
proof fn lemma_signed_first(v: int)
    ensures
        signed(v).len() > 0,
        signed(v)[0] != 93,
        signed(v)[0] != 44,
{
    if v < 0 {
        lemma_dec((-v) as nat);
    } else {
        lemma_dec(v as nat);
    }
}

/// One more measurement at the end of a sample adds a comma and its text.
pub proof fn lemma_tail_push(s: Seq<i64>, v: i64)
    ensures
        tail(s.push(v)) == tail(s) + seq![44u8] + signed(v as int),
    decreases s.len(),
{
    if s.len() == 0 {
        assert(s.push(v).drop_first() =~= Seq::<i64>::empty());
        assert(tail(s.push(v).drop_first()) =~= Seq::<u8>::empty());
        assert(s.push(v)[0] == v);
        assert(tail(s.push(v)) =~= tail(s) + seq![44u8] + signed(v as int));
    } else {
        assert(s.push(v).drop_first() =~= s.drop_first().push(v));
        lemma_tail_push(s.drop_first(), v);
        assert(tail(s.push(v)) =~= tail(s) + seq![44u8] + signed(v as int));
    }
}

/// One more measurement at the end of a sample adds its text, after a
/// comma where it is not the first.
pub proof fn lemma_list_push(s: Seq<i64>, v: i64)
    ensures
        list(s.push(v)) == if s.len() == 0 {
            signed(v as int)
        } else {
            list(s) + seq![44u8] + signed(v as int)
        },
{
    if s.len() == 0 {
        assert(s.push(v).drop_first() =~= Seq::<i64>::empty());
        assert(list(s.push(v)) =~= signed(v as int));
    } else {
        assert(s.push(v).drop_first() =~= s.drop_first().push(v));
        lemma_tail_push(s.drop_first(), v);
        assert(list(s.push(v)) =~= list(s) + seq![44u8] + signed(v as int));
    }
}

/// Before a closing bracket, the text of measurements after commas is
/// read as those measurements.
proof fn lemma_parse_more(acc: Seq<i64>, s: Seq<i64>, rest: Seq<u8>)
    requires
        rest.len() > 0,
        rest[0] == 93,
    ensures
        parse_more(acc, tail(s) + rest) == Some((acc + s, rest)),
    decreases s.len(),
{
    let input = tail(s) + rest;
    if s.len() == 0 {
        assert(input =~= rest);
        assert(acc + s =~= acc);
    } else {
        let next = tail(s.drop_first()) + rest;
        lemma_signed_first(s[0] as int);
        if s.len() > 1 {
            assert(next[0] == 44);
        } else {
            assert(next =~= rest);
        }
        assert(ends_whole(next));
        assert(input[0] == 44);
        assert(input.skip(1) =~= signed(s[0] as int) + next);
        lemma_parse_signed(s[0] as int, next);
        lemma_parse_more(acc.push(s[0]), s.drop_first(), rest);
        assert(acc.push(s[0]) + s.drop_first() =~= acc + s);
    }
}

/// What is read as measurements after commas is their text.
proof fn lemma_parse_more_sound(acc: Seq<i64>, input: Seq<u8>)
    requires
        parse_more(acc, input) is Some,
    ensures
        ({
            let (out, rest) = parse_more(acc, input)->0;
            &&& acc.len() <= out.len()
            &&& out.take(acc.len() as int) == acc
            &&& input == tail(out.skip(acc.len() as int)) + rest
        }),
    decreases input.len(),
{
    let (out, rest) = parse_more(acc, input)->0;
    if input.len() > 0 && input[0] == 44 {
        lemma_parse_signed_sound(input.skip(1));
        let (v, after) = parse_i64(input.skip(1))->0;
        lemma_parse_more_sound(acc.push(v), after);
        let more = out.skip(acc.len() as int);
        let further = out.skip(acc.len() as int + 1);
        assert(out.take(acc.len() as int) =~= out.take(acc.len() as int + 1).take(acc.len() as int));
        assert(more[0] == out.take(acc.len() as int + 1)[acc.len() as int]);
        assert(more.drop_first() =~= further);
        assert(input =~= seq![44u8] + input.skip(1));
        assert(input =~= tail(more) + rest);
    } else {
        assert(out.take(acc.len() as int) =~= acc);
        assert(out.skip(acc.len() as int) =~= Seq::<i64>::empty());
        assert(input =~= tail(out.skip(acc.len() as int)) + rest);
    }
}

/// Before a closing bracket, the text of measurements is read as those
/// measurements.
proof fn lemma_parse_list(s: Seq<i64>, rest: Seq<u8>)
    requires
        rest.len() > 0,
        rest[0] == 93,
    ensures
        parse_list(list(s) + rest) == Some((s, rest)),
{
    let input = list(s) + rest;
    if s.len() == 0 {
        assert(input =~= rest);
        assert(s =~= Seq::<i64>::empty());
    } else {
        let next = tail(s.drop_first()) + rest;
        lemma_signed_first(s[0] as int);
        if s.len() > 1 {
            assert(next[0] == 44);
        } else {
            assert(next =~= rest);
        }
        assert(input[0] == signed(s[0] as int)[0]);
        assert(input =~= signed(s[0] as int) + next);
        lemma_parse_signed(s[0] as int, next);
        lemma_parse_more(seq![s[0]], s.drop_first(), rest);
        assert(seq![s[0]] + s.drop_first() =~= s);
    }
}

/// What is read as measurements is their text.
proof fn lemma_parse_list_sound(input: Seq<u8>)
    requires
        parse_list(input) is Some,
    ensures
        ({
            let (s, rest) = parse_list(input)->0;
            input == list(s) + rest
        }),
{
    let (s, rest) = parse_list(input)->0;
    if input.len() > 0 && input[0] == 93 {
        assert(input =~= list(s) + rest);
    } else {
        lemma_parse_signed_sound(input);
        let (v, after) = parse_i64(input)->0;
        lemma_parse_more_sound(seq![v], after);
        assert(s[0] == s.take(1)[0]);
        assert(s.drop_first() =~= s.skip(1));
        assert(input =~= list(s) + rest);
    }
}

/// A member before a closing bracket is read as its measurements.
proof fn lemma_parse_member(open: &str, s: Seq<i64>, rest: Seq<u8>)
    requires
        rest.len() > 0,
        rest[0] == 93,
    ensures
        parse_member(open, member(open, s) + rest) == Some((s, rest)),
{
    let lit = open.spec_bytes();
    let input = member(open, s) + rest;
    assert(input.take(lit.len() as int) =~= lit);
    assert(input.skip(lit.len() as int) =~= list(s) + rest);
    lemma_parse_list(s, rest);
}

/// What is read as a member is that member.
proof fn lemma_parse_member_sound(open: &str, input: Seq<u8>)
    requires
        parse_member(open, input) is Some,
    ensures
        ({
            let (s, rest) = parse_member(open, input)->0;
            input == member(open, s) + rest
        }),
{
    let lit = open.spec_bytes();
    let (s, rest) = parse_member(open, input)->0;
    lemma_parse_list_sound(input.skip(lit.len() as int));
    assert(input =~= input.take(lit.len() as int) + input.skip(lit.len() as int));
    assert(input =~= member(open, s) + rest);
}

/// A fence before a comma or a closing bracket is read as that fence.
proof fn lemma_parse_fence(open: &str, t: int, rest: Seq<u8>)
    requires
        ends_eighths(rest),
    ensures
        parse_fence(open, fence(open, t) + rest) == Some((t, rest)),
{
    let lit = open.spec_bytes();
    let input = fence(open, t) + rest;
    assert(input.take(lit.len() as int) =~= lit);
    assert(input.skip(lit.len() as int) =~= eighths(t) + rest);
    lemma_parse_eighths(t, rest);
}

/// What is read as a fence is that fence.
proof fn lemma_parse_fence_sound(open: &str, input: Seq<u8>)
    requires
        parse_fence(open, input) is Some,
    ensures
        ({
            let (t, rest) = parse_fence(open, input)->0;
            input == fence(open, t) + rest
        }),
{
    let lit = open.spec_bytes();
    let (t, rest) = parse_fence(open, input)->0;
    lemma_parse_eighths_sound(input.skip(lit.len() as int));
    assert(input =~= input.take(lit.len() as int) + input.skip(lit.len() as int));
    assert(input =~= fence(open, t) + rest);
}

/// Joining three texts gives the same whichever two are joined first.
proof fn lemma_assoc(a: Seq<u8>, b: Seq<u8>, c: Seq<u8>)
    ensures
        (a + b) + c == a + (b + c),
{
    assert((a + b) + c =~= a + (b + c));
}

/// The five buckets before a closing bracket are read as they are.
proof fn lemma_parse_buckets(o: OutliersView, rest: Seq<u8>)
    requires
        rest.len() > 0,
        rest[0] == 93,
        o.thresholds == (0int, 0int, 0int, 0int),
    ensures
        parse_buckets(buckets(o) + rest) == Some((o, rest)),
{
    lemma_literals();
    let m0 = member("{\"high_mild\":[", o.high_mild);
    let m1 = member("],\"high_severe\":[", o.high_severe);
    let m2 = member("],\"low_mild\":[", o.low_mild);
    let m3 = member("],\"low_severe\":[", o.low_severe);
    let m4 = member("],\"normal\":[", o.normal);
    let r4 = m4 + rest;
    let r3 = m3 + r4;
    let r2 = m2 + r3;
    let r1 = m1 + r2;
    lemma_assoc(m0 + m1 + m2 + m3, m4, rest);
    lemma_assoc(m0 + m1 + m2, m3, r4);
    lemma_assoc(m0 + m1, m2, r3);
    lemma_assoc(m0, m1, r2);
    assert(buckets(o) + rest == m0 + r1);
    assert(r4[0] == 93 && r3[0] == 93 && r2[0] == 93 && r1[0] == 93);
    lemma_parse_member("{\"high_mild\":[", o.high_mild, r1);
    lemma_parse_member("],\"high_severe\":[", o.high_severe, r2);
    lemma_parse_member("],\"low_mild\":[", o.low_mild, r3);
    lemma_parse_member("],\"low_severe\":[", o.low_severe, r4);
    lemma_parse_member("],\"normal\":[", o.normal, rest);
}

/// What is read as five buckets is their text.
proof fn lemma_parse_buckets_sound(input: Seq<u8>)
    requires
        parse_buckets(input) is Some,
    ensures
        ({
            let (o, rest) = parse_buckets(input)->0;
            &&& input == buckets(o) + rest
            &&& o.thresholds == (0int, 0int, 0int, 0int)
        }),
{
    let (o, rest) = parse_buckets(input)->0;
    lemma_parse_member_sound("{\"high_mild\":[", input);
    let r1 = (parse_member("{\"high_mild\":[", input)->0).1;
    lemma_parse_member_sound("],\"high_severe\":[", r1);
    let r2 = (parse_member("],\"high_severe\":[", r1)->0).1;
    lemma_parse_member_sound("],\"low_mild\":[", r2);
    let r3 = (parse_member("],\"low_mild\":[", r2)->0).1;
    lemma_parse_member_sound("],\"low_severe\":[", r3);
    let r4 = (parse_member("],\"low_severe\":[", r3)->0).1;
    lemma_parse_member_sound("],\"normal\":[", r4);
    let m0 = member("{\"high_mild\":[", o.high_mild);
    let m1 = member("],\"high_severe\":[", o.high_severe);
    let m2 = member("],\"low_mild\":[", o.low_mild);
    let m3 = member("],\"low_severe\":[", o.low_severe);
    let m4 = member("],\"normal\":[", o.normal);
    assert(r4 == m4 + rest);
    assert(r3 == m3 + r4);
    assert(r2 == m2 + r3);
    assert(r1 == m1 + r2);
    assert(input == m0 + r1);
    lemma_assoc(m0 + m1 + m2 + m3, m4, rest);
    lemma_assoc(m0 + m1 + m2, m3, r4);
    lemma_assoc(m0 + m1, m2, r3);
    lemma_assoc(m0, m1, r2);
}

/// The four fences before a closing bracket are read as they are.
proof fn lemma_parse_thresholds(t: (int, int, int, int), rest: Seq<u8>)
    requires
        rest.len() > 0,
        rest[0] == 93,
    ensures
        parse_thresholds(fences_member(t) + rest) == Some((t, rest)),
{
    lemma_literals();
    let f0 = fence("],\"thresholds\":[", t.0);
    let f1 = fence(",", t.1);
    let f2 = fence(",", t.2);
    let f3 = fence(",", t.3);
    let r3 = f3 + rest;
    let r2 = f2 + r3;
    let r1 = f1 + r2;
    lemma_assoc(f0 + f1 + f2, f3, rest);
    lemma_assoc(f0 + f1, f2, r3);
    lemma_assoc(f0, f1, r2);
    assert(fences_member(t) + rest == f0 + r1);
    assert(r3[0] == 44 && r2[0] == 44 && r1[0] == 44);
    lemma_parse_fence("],\"thresholds\":[", t.0, r1);
    lemma_parse_fence(",", t.1, r2);
    lemma_parse_fence(",", t.2, r3);
    lemma_parse_fence(",", t.3, rest);
    assert(t == (t.0, t.1, t.2, t.3));
}

/// What is read as four fences is their text.
proof fn lemma_parse_thresholds_sound(input: Seq<u8>)
    requires
        parse_thresholds(input) is Some,
    ensures
        ({
            let (t, rest) = parse_thresholds(input)->0;
            input == fences_member(t) + rest
        }),
{
    let (t, rest) = parse_thresholds(input)->0;
    lemma_parse_fence_sound("],\"thresholds\":[", input);
    let r1 = (parse_fence("],\"thresholds\":[", input)->0).1;
    lemma_parse_fence_sound(",", r1);
    let r2 = (parse_fence(",", r1)->0).1;
    lemma_parse_fence_sound(",", r2);
    let r3 = (parse_fence(",", r2)->0).1;
    lemma_parse_fence_sound(",", r3);
    let f0 = fence("],\"thresholds\":[", t.0);
    let f1 = fence(",", t.1);
    let f2 = fence(",", t.2);
    let f3 = fence(",", t.3);
    assert(r3 == f3 + rest);
    assert(r2 == f2 + r3);
    assert(r1 == f1 + r2);
    assert(input == f0 + r1);
    lemma_assoc(f0 + f1 + f2, f3, rest);
    lemma_assoc(f0 + f1, f2, r3);
    lemma_assoc(f0, f1, r2);
}

/// The aggregate `o` with its fences set to naught.
pub open spec fn without_fences(o: OutliersView) -> OutliersView {
    OutliersView {
        low_severe: o.low_severe,
        low_mild: o.low_mild,
        normal: o.normal,
        high_mild: o.high_mild,
        high_severe: o.high_severe,
        thresholds: (0, 0, 0, 0),
    }
}

/// The document of an aggregate is read as that aggregate.
pub proof fn lemma_parse_document(o: OutliersView)
    ensures
        parse_document(document(o)) == Some(o),
{
    lemma_literals();
    let close = "]}".spec_bytes();
    let b = without_fences(o);
    let r1 = fences_member(o.thresholds) + close;
    assert(buckets(b) == buckets(o));
    lemma_assoc(buckets(o), fences_member(o.thresholds), close);
    assert(r1[0] == 93);
    lemma_parse_buckets(b, r1);
    lemma_parse_thresholds(o.thresholds, close);
}

/// What is read as a document is the document of what was read.
pub proof fn lemma_parse_document_sound(input: Seq<u8>)
    requires
        parse_document(input) is Some,
    ensures
        document(parse_document(input)->0) == input,
{
    let o = parse_document(input)->0;
    lemma_parse_buckets_sound(input);
    let (b, r1) = parse_buckets(input)->0;
    lemma_parse_thresholds_sound(r1);
    let close = "]}".spec_bytes();
    assert(buckets(b) == buckets(o));
    lemma_assoc(buckets(o), fences_member(o.thresholds), close);
}

/// Two aggregates with the same document are the same aggregate.
pub proof fn lemma_document_injective(a: OutliersView, b: OutliersView)
    requires
        document(a) == document(b),
    ensures
        a == b,
{
    lemma_parse_document(a);
    lemma_parse_document(b);
}

/// Writing an aggregate and reading the document back gives the aggregate
/// again: every bucket with its measurements in their order, and every
/// fence.
pub proof fn lemma_round_trip(o: OutliersView, r: Option<OutliersView>)
    requires
        o.storable(),
        decodes_to(document(o), r),
    ensures
        r == Some(o),
{
    match r {
        Some(back) => {
            lemma_document_injective(o, back);
        },
        None => {},
    }
}

/// What the reading of `bytes`, as defined on sequences, gives is what a
/// reader may give.
pub proof fn lemma_decodes_to(bytes: Seq<u8>)
    ensures
        decodes_to(
            bytes,
            match parse_document(bytes) {
                Some(o) => if o.storable() {
                    Some(o)
                } else {
                    None
                },
                None => None,
            },
        ),
{
    if parse_document(bytes) is Some {
        lemma_parse_document_sound(bytes);
    }
    assert forall|o: OutliersView| document(o) == bytes implies parse_document(bytes) == Some(
        o,
    ) by {
        lemma_parse_document(o);
    }
}

/// Appends the text of the measurements `s`, with commas between them,
/// to `out`.
pub(crate) fn write_list(out: &mut Vec<u8>, s: &[i64])
    ensures
        final(out)@ == old(out)@ + list(s@),
{
    let ghost before = out@;
    let mut i: usize = 0;
    assert(s@.take(0) =~= Seq::<i64>::empty());
    assert(out@ =~= before + list(s@.take(0)));
    while i < s.len()
        invariant
            i <= s.len(),
            out@ == before + list(s@.take(i as int)),
        decreases s.len() - i,
    {
        let ghost sofar = out@;
        if i > 0 {
            out.push(COMMA);
        }
        write_i64(out, s[i]);
        proof {
            let done = s@.take(i as int);
            assert(s@.take(i + 1) =~= done.push(s@[i as int]));
            lemma_list_push(done, s@[i as int]);
            if i > 0 {
                assert(out@ =~= sofar + seq![44u8] + signed(s@[i as int] as int));
                assert(out@ =~= before + (list(done) + seq![44u8] + signed(s@[i as int] as int)));
            } else {
                assert(list(done) =~= Seq::<u8>::empty());
                assert(out@ =~= before + signed(s@[i as int] as int));
            }
        }
        i += 1;
    }
    assert(s@.take(i as int) =~= s@);
}

/// Appends the text `open` and the measurements `s` to `out`.
pub(crate) fn write_member(out: &mut Vec<u8>, open: &str, s: &[i64])
    ensures
        final(out)@ == old(out)@ + member(open, s@),
{
    out.extend_from_slice(open.as_bytes());
    write_list(out, s);
    assert(out@ =~= old(out)@ + member(open, s@));
}

/// Appends the text `open` and the fence `t`, in eighths of a tick, to
/// `out`.
pub(crate) fn write_fence(out: &mut Vec<u8>, open: &str, t: i128)
    ensures
        final(out)@ == old(out)@ + fence(open, t as int),
{
    out.extend_from_slice(open.as_bytes());
    write_eighths(out, t);
    assert(out@ =~= old(out)@ + fence(open, t as int));
}

/// The buckets and fences of an aggregate, as a document holds them.
pub(crate) struct Parts {
    pub(crate) high_mild: Vec<i64>,
    pub(crate) high_severe: Vec<i64>,
    pub(crate) low_mild: Vec<i64>,
    pub(crate) low_severe: Vec<i64>,
    pub(crate) normal: Vec<i64>,
    pub(crate) thresholds: (i128, i128, i128, i128),
}

impl View for Parts {
    type V = OutliersView;

    open(crate) spec fn view(&self) -> OutliersView {
        OutliersView {
            low_severe: self.low_severe@,
            low_mild: self.low_mild@,
            normal: self.normal@,
            high_mild: self.high_mild@,
            high_severe: self.high_severe@,
            thresholds: fences_view(self.thresholds),
        }
    }
}

/// Writes the document of the aggregate with the given buckets and fences.
pub(crate) fn write_document(
    high_mild: &[i64],
    high_severe: &[i64],
    low_mild: &[i64],
    low_severe: &[i64],
    normal: &[i64],
    thresholds: (i128, i128, i128, i128),
) -> (out: Vec<u8>)
    ensures
        out@ == document(
            OutliersView {
                low_severe: low_severe@,
                low_mild: low_mild@,
                normal: normal@,
                high_mild: high_mild@,
                high_severe: high_severe@,
                thresholds: fences_view(thresholds),
            },
        ),
{
    let mut out: Vec<u8> = Vec::new();
    write_member(&mut out, "{\"high_mild\":[", high_mild);
    write_member(&mut out, "],\"high_severe\":[", high_severe);
    write_member(&mut out, "],\"low_mild\":[", low_mild);
    write_member(&mut out, "],\"low_severe\":[", low_severe);
    write_member(&mut out, "],\"normal\":[", normal);
    let ghost o = OutliersView {
        low_severe: low_severe@,
        low_mild: low_mild@,
        normal: normal@,
        high_mild: high_mild@,
        high_severe: high_severe@,
        thresholds: fences_view(thresholds),
    };
    assert(out@ =~= buckets(o));
    write_fence(&mut out, "],\"thresholds\":[", thresholds.0);
    write_fence(&mut out, ",", thresholds.1);
    write_fence(&mut out, ",", thresholds.2);
    write_fence(&mut out, ",", thresholds.3);
    assert(out@ =~= buckets(o) + fences_member(o.thresholds));
    out.extend_from_slice("]}".as_bytes());
    out
}

/// Reads the measurements that stand in `bytes` at `pos`, up to a closing
/// bracket, and tells where they end.
pub(crate) fn read_list(bytes: &[u8], pos: usize) -> (r: Option<(Vec<i64>, usize)>)
    requires
        pos <= bytes.len(),
    ensures
        match parse_list(bytes@.skip(pos as int)) {
            Some((s, rest)) => {
                &&& r matches Some((v, end))
                &&& v@ == s
                &&& pos <= end <= bytes.len()
                &&& v.len() <= end - pos
                &&& rest == bytes@.skip(end as int)
            },
            None => r is None,
        },
{
    let ghost input = bytes@.skip(pos as int);
    proof {
        if pos < bytes.len() {
            assert(input[0] == bytes@[pos as int]);
        }
    }
    if pos < bytes.len() && bytes[pos] == CLOSE {
        return Some((Vec::new(), pos));
    }
    let (first, after) = match read_i64(bytes, pos) {
        None => {
            return None;
        },
        Some(found) => found,
    };
    let mut acc: Vec<i64> = Vec::new();
    acc.push(first);
    assert(acc@ =~= seq![first]);
    let mut i: usize = after;
    while i < bytes.len() && bytes[i] == COMMA
        invariant
            pos < i <= bytes.len(),
            acc.len() <= i - pos,
            input == bytes@.skip(pos as int),
            parse_list(input) == parse_more(acc@, bytes@.skip(i as int)),
        decreases bytes.len() - i,
    {
        proof {
            let cur = bytes@.skip(i as int);
            assert(cur[0] == bytes@[i as int]);
            assert(cur.skip(1) =~= bytes@.skip(i + 1));
        }
        match read_i64(bytes, i + 1) {
            None => {
                return None;
            },
            Some((v, end)) => {
                acc.push(v);
                i = end;
            },
        }
    }
    proof {
        if i < bytes.len() {
            assert(bytes@.skip(i as int)[0] == bytes@[i as int]);
        }
    }
    Some((acc, i))
}

/// Reads the text `open` and the measurements after it, at `pos` in
/// `bytes`, and tells where they end.
pub(crate) fn read_member(bytes: &[u8], pos: usize, open: &str) -> (r: Option<(Vec<i64>, usize)>)
    requires
        pos <= bytes.len(),
    ensures
        match parse_member(open, bytes@.skip(pos as int)) {
            Some((s, rest)) => {
                &&& r matches Some((v, end))
                &&& v@ == s
                &&& pos <= end <= bytes.len()
                &&& v.len() <= end - pos
                &&& rest == bytes@.skip(end as int)
            },
            None => r is None,
        },
{
    match expect(bytes, pos, open) {
        None => None,
        Some(mid) => {
            assert(bytes@.skip(pos as int).skip(open.spec_bytes().len() as int) =~= bytes@.skip(
                mid as int,
            ));
            read_list(bytes, mid)
        },
    }
}

/// Reads the text `open` and the fence after it, at `pos` in `bytes`, if
/// the fence fits 128 bits, and tells where it ends.
pub(crate) fn read_fence(bytes: &[u8], pos: usize, open: &str) -> (r: Option<(i128, usize)>)
    requires
        pos <= bytes.len(),
    ensures
        match parse_fence(open, bytes@.skip(pos as int)) {
            Some((t, rest)) => if i128::MIN <= t <= i128::MAX {
                &&& r matches Some((u, end))
                &&& u == t
                &&& pos <= end <= bytes.len()
                &&& rest == bytes@.skip(end as int)
            } else {
                r is None
            },
            None => r is None,
        },
{
    match expect(bytes, pos, open) {
        None => None,
        Some(mid) => {
            assert(bytes@.skip(pos as int).skip(open.spec_bytes().len() as int) =~= bytes@.skip(
                mid as int,
            ));
            read_eighths(bytes, mid)
        },
    }
}

/// Reads the five buckets with which `bytes` begins, leaves the fences at
/// naught, and tells where the buckets end.
pub(crate) fn read_buckets(bytes: &[u8]) -> (r: Option<(Parts, usize)>)
    ensures
        match parse_buckets(bytes@) {
            Some((o, rest)) => {
                &&& r matches Some((p, end))
                &&& p@ == o
                &&& end <= bytes.len()
                &&& p.high_mild.len() + p.high_severe.len() + p.low_mild.len()
                    + p.low_severe.len() + p.normal.len() <= end
                &&& rest == bytes@.skip(end as int)
            },
            None => r is None,
        },
{
    assert(bytes@.skip(0) =~= bytes@);
    let (high_mild, p1) = match read_member(bytes, 0, "{\"high_mild\":[") {
        None => {
            return None;
        },
        Some(found) => found,
    };
    let (high_severe, p2) = match read_member(bytes, p1, "],\"high_severe\":[") {
        None => {
            return None;
        },
        Some(found) => found,
    };
    let (low_mild, p3) = match read_member(bytes, p2, "],\"low_mild\":[") {
        None => {
            return None;
        },
        Some(found) => found,
    };
    let (low_severe, p4) = match read_member(bytes, p3, "],\"low_severe\":[") {
        None => {
            return None;
        },
        Some(found) => found,
    };
    let (normal, p5) = match read_member(bytes, p4, "],\"normal\":[") {
        None => {
            return None;
        },
        Some(found) => found,
    };
    Some(
        (Parts { high_mild, high_severe, low_mild, low_severe, normal, thresholds: (0, 0, 0, 0) }, p5),
    )
}

/// Reads the four fences that stand in `bytes` at `pos`, if each fits 128
/// bits, and tells where they end.
pub(crate) fn read_thresholds(bytes: &[u8], pos: usize) -> (r: Option<((i128, i128, i128, i128), usize)>)
    requires
        pos <= bytes.len(),
    ensures
        match parse_thresholds(bytes@.skip(pos as int)) {
            Some((t, rest)) => if fences_fit(t) {
                &&& r matches Some((u, end))
                &&& fences_view(u) == t
                &&& pos <= end <= bytes.len()
                &&& rest == bytes@.skip(end as int)
            } else {
                r is None
            },
            None => r is None,
        },
{
    let (t0, p1) = match read_fence(bytes, pos, "],\"thresholds\":[") {
        None => {
            return None;
        },
        Some(found) => found,
    };
    let (t1, p2) = match read_fence(bytes, p1, ",") {
        None => {
            return None;
        },
        Some(found) => found,
    };
    let (t2, p3) = match read_fence(bytes, p2, ",") {
        None => {
            return None;
        },
        Some(found) => found,
    };
    let (t3, p4) = match read_fence(bytes, p3, ",") {
        None => {
            return None;
        },
        Some(found) => found,
    };
    Some(((t0, t1, t2, t3), p4))
}

/// Reads a document as the reading defined on sequences does, as long as
/// the fences fit 128 bits.
fn read_whole(bytes: &[u8]) -> (r: Option<Parts>)
    ensures
        match parse_document(bytes@) {
            Some(o) => if fences_fit(o.thresholds) {
                &&& r matches Some(p)
                &&& p@ == o
                &&& p.high_mild.len() + p.high_severe.len() + p.low_mild.len()
                    + p.low_severe.len() + p.normal.len() <= bytes.len()
            } else {
                r is None
            },
            None => r is None,
        },
{
    let (b, p1) = match read_buckets(bytes) {
        None => {
            return None;
        },
        Some(found) => found,
    };
    let (thresholds, p2) = match read_thresholds(bytes, p1) {
        None => {
            return None;
        },
        Some(found) => found,
    };
    proof {
        let close = "]}".spec_bytes();
        assert(close.take(close.len() as int) =~= close);
    }
    let end = match expect(bytes, p2, "]}") {
        None => {
            return None;
        },
        Some(found) => found,
    };
    proof {
        let last = bytes@.skip(p2 as int);
        let close = "]}".spec_bytes();
        if end == bytes.len() {
            assert(last =~= last.take(close.len() as int));
        } else {
            assert(last.len() != close.len());
        }
    }
    if end != bytes.len() {
        return None;
    }
    Some(
        Parts {
            high_mild: b.high_mild,
            high_severe: b.high_severe,
            low_mild: b.low_mild,
            low_severe: b.low_severe,
            normal: b.normal,
            thresholds,
        },
    )
}

/// Reads a document. Only the one document of an aggregate is read as
/// that aggregate; any other text, and a document whose fences do not fit
/// 128 bits, is refused.
pub(crate) fn read_document(bytes: &[u8]) -> (r: Option<Parts>)
    ensures
        decodes_to(
            bytes@,
            match r {
                Some(p) => Some(p@),
                None => None,
            },
        ),
        r matches Some(p) ==> p.high_mild.len() + p.high_severe.len() + p.low_mild.len()
            + p.low_severe.len() + p.normal.len() <= bytes.len(),
{
    let r = read_whole(bytes);
    proof {
        lemma_decodes_to(bytes@);
    }
    r
}

} // verus!
