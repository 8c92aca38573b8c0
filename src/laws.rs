//! Facts about the `.byte` format that hold across encoding and decoding.
use vstd::prelude::*;
use crate::text::{
    all_digits, blob_values, byte_prefix, dec, decode_text, digits_value, encode_frames, frame_line,
    is_digit, is_separator, is_ws, join_values, last_token, nl_index, parse_line, parse_u8,
    separator, split_commas, strip_cr, trim, unsigned_part,
};

verus! {

/// Every byte is a digit or a comma.
pub open spec fn digits_or_commas(s: Seq<u8>) -> bool {
    forall|i: int| 0 <= i < s.len() ==> is_digit(#[trigger] s[i]) || s[i] == 44
}

proof fn lemma_dec(v: nat)
    ensures
        dec(v).len() > 0,
        all_digits(dec(v)),
        digits_value(dec(v)) == v,
    decreases v,
{
    let d = dec(v);
    if v >= 10 {
        lemma_dec(v / 10);
        assert(d.drop_last() =~= dec(v / 10));
        assert(d.last() == (48 + v % 10) as u8);
        assert(d.last() - 48 == v % 10);
        assert(digits_value(d) == digits_value(dec(v / 10)) * 10 + (d.last() - 48) as nat);
        assert((v / 10) * 10 + v % 10 == v);
        assert(digits_value(dec(v / 10)) == v / 10);
        assert(digits_value(d) == v);
        assert(all_digits(d)) by {
            assert forall|i: int| 0 <= i < d.len() implies is_digit(#[trigger] d[i]) by {
                if i < d.len() - 1 {
                    assert(d[i] == dec(v / 10)[i]);
                }
            }
        }
    } else {
        assert(d.drop_last() =~= seq![]);
        assert(d.last() == (48 + v) as u8);
        assert(digits_value(d) == digits_value(d.drop_last()) * 10 + (d.last() - 48) as nat);
        assert(digits_value(d) == v);
    }
}

proof fn lemma_parse_dec(v: u8)
    ensures
        parse_u8(dec(v as nat)) == Some(v),
{
    lemma_dec(v as nat);
    let d = dec(v as nat);
    assert(is_digit(d[0]));
    assert(unsigned_part(d) == d);
}

proof fn lemma_split_len(s: Seq<u8>)
    ensures
        split_commas(s).len() >= 1,
    decreases s.len(),
{
    if s.len() > 0 {
        lemma_split_len(s.drop_last());
    }
}

/// Appending comma-free bytes extends the last piece.
proof fn lemma_split_plain(x: Seq<u8>, d: Seq<u8>)
    requires
        all_digits(d),
    ensures
        split_commas(x + d) == split_commas(x).update(
            split_commas(x).len() - 1,
            split_commas(x).last() + d,
        ),
    decreases d.len(),
{
    lemma_split_len(x);
    let p0 = split_commas(x);
    if d.len() == 0 {
        assert(x + d =~= x);
        assert(p0.last() + d =~= p0.last());
        assert(p0.update(p0.len() - 1, p0.last()) =~= p0);
    } else {
        let dl = d.drop_last();
        assert(all_digits(dl)) by {
            assert forall|i: int| 0 <= i < dl.len() implies is_digit(#[trigger] dl[i]) by {
                assert(dl[i] == d[i]);
            }
        }
        lemma_split_plain(x, dl);
        assert((x + d).drop_last() =~= x + dl);
        assert((x + d).last() == d.last());
        assert(is_digit(d[d.len() - 1]));
        let p = split_commas(x + dl);
        assert(p.len() == p0.len());
        assert(split_commas(x + d) == p.update(p.len() - 1, p.last().push(d.last())));
        assert((p0.last() + dl).push(d.last()) =~= p0.last() + d);
        assert(split_commas(x + d) =~= p0.update(p0.len() - 1, p0.last() + d));
    }
}

proof fn lemma_split_join(s: Seq<u8>)
    requires
        s.len() >= 1,
    ensures
        split_commas(join_values(s)).len() == s.len(),
        forall|k: int| 0 <= k < s.len() ==> split_commas(join_values(s))[k] == dec(s[k] as nat),
        digits_or_commas(join_values(s)),
        join_values(s).len() >= s.len(),
        is_digit(join_values(s).last()),
    decreases s.len(),
{
    let j = join_values(s);
    if s.len() == 1 {
        lemma_dec(s[0] as nat);
        let e: Seq<u8> = seq![];
        lemma_split_plain(e, dec(s[0] as nat));
        assert(e + dec(s[0] as nat) =~= dec(s[0] as nat));
        assert(split_commas(e).last() + dec(s[0] as nat) =~= dec(s[0] as nat));
        assert(split_commas(j) =~= seq![dec(s[0] as nat)]);
    } else {
        let sl = s.drop_last();
        lemma_split_join(sl);
        let js = join_values(sl);
        let dv = dec(s.last() as nat);
        lemma_dec(s.last() as nat);
        let x = js.push(44u8);
        lemma_split_plain(x, dv);
        lemma_split_len(js);
        assert(x.drop_last() =~= js);
        assert(split_commas(x) == split_commas(js).push(seq![]));
        let e: Seq<u8> = seq![];
        assert(e + dv =~= dv);
        assert(split_commas(j) =~= split_commas(js).push(dv));
        assert(digits_or_commas(j)) by {
            assert forall|i: int| 0 <= i < j.len() implies is_digit(#[trigger] j[i]) || j[i] == 44 by {
                if i < js.len() {
                    assert(j[i] == js[i]);
                } else if i > js.len() {
                    assert(j[i] == dv[i - js.len() - 1]);
                }
            }
        }
        assert(j.last() == dv.last());
        assert(is_digit(dv[dv.len() - 1]));
    }
}

proof fn lemma_blob_join(s: Seq<u8>)
    requires
        s.len() == 25,
    ensures
        blob_values(join_values(s)) == Some(s),
{
    lemma_split_join(s);
    let toks = split_commas(join_values(s));
    assert forall|k: int| 0 <= k < toks.len() implies (#[trigger] parse_u8(toks[k])) == Some(s[k]) by {
        lemma_parse_dec(s[k]);
    }
    assert(Seq::new(25, |i: int| if i < toks.len() { parse_u8(toks[i])->Some_0 } else { 0u8 }) =~= s);
}

/// The part after the last space, when the prefix ends in a space.
proof fn lemma_last_token(x: Seq<u8>, d: Seq<u8>)
    requires
        x.len() > 0,
        x.last() == 32,
        digits_or_commas(d),
    ensures
        last_token(x + d) == d,
    decreases d.len(),
{
    if d.len() == 0 {
        assert(x + d =~= x);
    } else {
        let dl = d.drop_last();
        assert(digits_or_commas(dl)) by {
            assert forall|i: int| 0 <= i < dl.len() implies is_digit(#[trigger] dl[i]) || dl[i] == 44 by {
                assert(dl[i] == d[i]);
            }
        }
        lemma_last_token(x, dl);
        assert((x + d).drop_last() =~= x + dl);
        assert(is_digit(d[d.len() - 1]) || d[d.len() - 1] == 44);
        assert(dl.push(d.last()) =~= d);
    }
}

/// A line whose first and last bytes are not whitespace is its own trim.
proof fn lemma_trim_plain(l: Seq<u8>)
    requires
        l.len() > 0,
        !is_ws(l[0]),
        !is_ws(l.last()),
    ensures
        trim(l) == l,
{
}

proof fn lemma_data_line(s: Seq<u8>)
    requires
        s.len() == 25,
    ensures
        parse_line(frame_line(s)) == Some(s),
        forall|i: int| 0 <= i < frame_line(s).len() ==> #[trigger] frame_line(s)[i] != 10,
{
    lemma_split_join(s);
    lemma_blob_join(s);
    let j = join_values(s);
    let l = frame_line(s);
    assert(l.last() == j.last());
    assert(strip_cr(l) == l);
    lemma_trim_plain(l);
    assert(l.len() != 7);
    assert(!is_separator(l)) by {
        assert(separator(true).len() == 7);
        assert(separator(false).len() == 7);
    }
    lemma_last_token(byte_prefix(), j);
    assert forall|i: int| 0 <= i < l.len() implies #[trigger] l[i] != 10 by {
        if i >= 6 {
            assert(l[i] == j[i - 6]);
            assert(is_digit(j[i - 6]) || j[i - 6] == 44);
        }
    }
}

proof fn lemma_separator_line(last: bool)
    ensures
        parse_line(separator(last)) is None,
        forall|i: int| 0 <= i < separator(last).len() ==> #[trigger] separator(last)[i] != 10,
{
    let l = separator(last);
    assert(strip_cr(l) == l);
    lemma_trim_plain(l);
}

proof fn lemma_nl_index(l: Seq<u8>, rest: Seq<u8>)
    requires
        forall|i: int| 0 <= i < l.len() ==> #[trigger] l[i] != 10,
    ensures
        nl_index(l.push(10u8) + rest) == l.len(),
    decreases l.len(),
{
    let t = l.push(10u8) + rest;
    if l.len() > 0 {
        let ld = l.drop_first();
        assert forall|i: int| 0 <= i < ld.len() implies #[trigger] ld[i] != 10 by {
            assert(ld[i] == l[i + 1]);
        }
        lemma_nl_index(ld, rest);
        assert(t.drop_first() =~= ld.push(10u8) + rest);
    }
}

/// Decoding a newline-terminated line followed by more text.
proof fn lemma_decode_step(l: Seq<u8>, rest: Seq<u8>)
    requires
        forall|i: int| 0 <= i < l.len() ==> #[trigger] l[i] != 10,
    ensures
        decode_text(l.push(10u8) + rest) == match parse_line(l) {
            Some(f) => seq![f] + decode_text(rest),
            None => decode_text(rest),
        },
{
    let t = l.push(10u8) + rest;
    lemma_nl_index(l, rest);
    assert(t.subrange(0, l.len() as int) =~= l);
    assert(t.subrange(l.len() as int + 1, t.len() as int) =~= rest);
}

/// Decoding the text of frames of 25 values each gives back the same
/// frames, in the same order.
pub proof fn lemma_round_trip(fs: Seq<Seq<u8>>)
    requires
        forall|i: int| 0 <= i < fs.len() ==> (#[trigger] fs[i]).len() == 25,
    ensures
        decode_text(encode_frames(fs)) == fs,
    decreases fs.len(),
{
    if fs.len() > 0 {
        let rest = fs.drop_first();
        assert forall|i: int| 0 <= i < rest.len() implies (#[trigger] rest[i]).len() == 25 by {
            assert(rest[i] == fs[i + 1]);
        }
        lemma_round_trip(rest);
        let sep = separator(fs.len() == 1);
        let tail = sep.push(10u8) + encode_frames(rest);
        lemma_data_line(fs[0]);
        lemma_separator_line(fs.len() == 1);
        assert(encode_frames(fs) =~= frame_line(fs[0]).push(10u8) + tail);
        lemma_decode_step(frame_line(fs[0]), tail);
        lemma_decode_step(sep, encode_frames(rest));
        assert(seq![fs[0]] + rest =~= fs);
    }
}

} // verus!
