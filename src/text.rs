//! The `.byte` text format, as bytes: one data line per frame, each followed
//! by a separator line (`.byte 1` between frames, `.byte 0` after the last).
use vstd::prelude::*;
use crate::frame::Frame;

verus! {

/// Decimal digits of `v`, most significant first, without leading zeros.
pub open spec fn dec(v: nat) -> Seq<u8>
    decreases v,
{
    if v < 10 {
        seq![(48 + v) as u8]
    } else {
        dec(v / 10).push((48 + v % 10) as u8)
    }
}

/// The values in decimal, separated by commas.
pub open spec fn join_values(s: Seq<u8>) -> Seq<u8>
    decreases s.len(),
{
    if s.len() == 0 {
        seq![]
    } else if s.len() == 1 {
        dec(s[0] as nat)
    } else {
        join_values(s.drop_last()).push(44u8) + dec(s.last() as nat)
    }
}

/// The bytes of `.byte ` (with its trailing space).
pub open spec fn byte_prefix() -> Seq<u8> {
    seq![46u8, 98u8, 121u8, 116u8, 101u8, 32u8]
}

/// The separator line: `.byte 0` after the last frame, `.byte 1` otherwise.
pub open spec fn separator(last: bool) -> Seq<u8> {
    byte_prefix().push(if last { 48u8 } else { 49u8 })
}

/// The data line of a frame: `.byte v0,v1,...,v24`.
pub open spec fn frame_line(leds: Seq<u8>) -> Seq<u8> {
    byte_prefix() + join_values(leds)
}

/// Data line, newline, separator line, newline.
pub open spec fn frame_block(leds: Seq<u8>, last: bool) -> Seq<u8> {
    frame_line(leds).push(10u8) + separator(last).push(10u8)
}

/// The whole text of a sequence of frames.
pub open spec fn encode_frames(fs: Seq<Seq<u8>>) -> Seq<u8>
    decreases fs.len(),
{
    if fs.len() == 0 {
        seq![]
    } else {
        frame_block(fs[0], fs.len() == 1) + encode_frames(fs.drop_first())
    }
}

/// The values held by each frame, in order.
pub open spec fn frame_views(fs: Seq<Frame>) -> Seq<Seq<u8>> {
    fs.map_values(|f: Frame| f.view())
}

/// Appends the decimal digits of `v`.
fn push_decimal(out: &mut Vec<u8>, v: u8)
    ensures
        final(out)@ == old(out)@ + dec(v as nat),
{
    let ghost n = v as nat;
    if v >= 100 {
        assert(dec(n) == dec(n / 10).push((48 + n % 10) as u8));
        assert(dec(n / 10) == dec(n / 100).push((48 + (n / 10) % 10) as u8));
        assert(n / 10 / 10 == n / 100);
        out.push(48 + v / 100);
        out.push(48 + (v / 10) % 10);
        out.push(48 + v % 10);
    } else if v >= 10 {
        assert(dec(n) == dec(n / 10).push((48 + n % 10) as u8));
        out.push(48 + v / 10);
        out.push(48 + v % 10);
    } else {
        out.push(48 + v);
    }
    assert(out@ =~= old(out)@ + dec(n));
}

/// Appends the bytes of `.byte `.
fn push_prefix(out: &mut Vec<u8>)
    ensures
        final(out)@ == old(out)@ + byte_prefix(),
{
    out.push(46u8);
    out.push(98u8);
    out.push(121u8);
    out.push(116u8);
    out.push(101u8);
    out.push(32u8);
    assert(out@ =~= old(out)@ + byte_prefix());
}

impl Frame {
    /// The frame's data line, `.byte v0,v1,...,v24`, without a newline.
    pub fn encode(&self) -> (r: Vec<u8>)
        ensures
            r@ == frame_line(self.view()),
    {
        let mut out: Vec<u8> = Vec::new();
        push_prefix(&mut out);
        let mut i: usize = 0;
        while i < 25
            invariant
                i <= 25,
                self.leds@.len() == 25,
                out@ == byte_prefix() + join_values(self.leds@.subrange(0, i as int)),
            decreases 25 - i,
        {
            if i != 0 {
                out.push(44u8);
            }
            push_decimal(&mut out, self.leds[i]);
            proof {
                let s = self.leds@.subrange(0, i + 1);
                assert(s.drop_last() =~= self.leds@.subrange(0, i as int));
                if i == 0 {
                    assert(join_values(self.leds@.subrange(0, 0)) =~= seq![]);
                }
                assert(out@ =~= byte_prefix() + join_values(s));
            }
            i += 1;
        }
        assert(self.leds@.subrange(0, 25) =~= self.leds@);
        out
    }
}

/// The text of the frames: for each, its data line and a separator line.
pub fn encode_document(frames: &Vec<Frame>) -> (r: Vec<u8>)
    ensures
        r@ == encode_frames(frame_views(frames@)),
{
    let ghost all = frame_views(frames@);
    let mut out: Vec<u8> = Vec::new();
    let mut i: usize = 0;
    let n = frames.len();
    assert(all.subrange(0, n as int) =~= all);
    assert(out@ + encode_frames(all) =~= encode_frames(all));
    while i < n
        invariant
            n == frames@.len(),
            all == frame_views(frames@),
            i <= n,
            out@ + encode_frames(all.subrange(i as int, n as int)) == encode_frames(all),
        decreases n - i,
    {
        let ghost rest = all.subrange(i as int, n as int);
        assert(rest.drop_first() =~= all.subrange(i + 1, n as int));
        let line = frames[i].encode();
        out.extend_from_slice(line.as_slice());
        out.push(10u8);
        push_prefix(&mut out);
        if i + 1 == n {
            out.push(48u8);
        } else {
            out.push(49u8);
        }
        out.push(10u8);
        assert(out@ + encode_frames(all.subrange(i + 1, n as int)) =~= encode_frames(all)) by {
            assert(encode_frames(rest) == frame_block(rest[0], rest.len() == 1) + encode_frames(
                rest.drop_first(),
            ));
        }
        i += 1;
    }
    assert(all.subrange(n as int, n as int) =~= Seq::<Seq<u8>>::empty());
    assert(all.subrange(0, n as int) =~= all);
    out
}


/// ASCII whitespace, as `str::trim` drops it.
pub open spec fn is_ws(b: u8) -> bool {
    b == 32 || b == 9 || b == 10 || b == 11 || b == 12 || b == 13
}

pub open spec fn trim_front(s: Seq<u8>) -> Seq<u8>
    decreases s.len(),
{
    if s.len() > 0 && is_ws(s[0]) {
        trim_front(s.drop_first())
    } else {
        s
    }
}

pub open spec fn trim_back(s: Seq<u8>) -> Seq<u8>
    decreases s.len(),
{
    if s.len() > 0 && is_ws(s.last()) {
        trim_back(s.drop_last())
    } else {
        s
    }
}

/// The line without surrounding whitespace.
pub open spec fn trim(s: Seq<u8>) -> Seq<u8> {
    trim_back(trim_front(s))
}

/// A line that trims to `.byte 0` or `.byte 1`.
pub open spec fn is_separator(l: Seq<u8>) -> bool {
    trim(l) == separator(true) || trim(l) == separator(false)
}

/// What follows the last space of the line (the whole line if it has none).
pub open spec fn last_token(s: Seq<u8>) -> Seq<u8>
    decreases s.len(),
{
    if s.len() == 0 {
        seq![]
    } else if s.last() == 32 {
        seq![]
    } else {
        last_token(s.drop_last()).push(s.last())
    }
}

/// The pieces of `s` between commas; always at least one piece.
pub open spec fn split_commas(s: Seq<u8>) -> Seq<Seq<u8>>
    decreases s.len(),
{
    if s.len() == 0 {
        seq![seq![]]
    } else if s.last() == 44 {
        split_commas(s.drop_last()).push(seq![])
    } else {
        let p = split_commas(s.drop_last());
        p.update(p.len() - 1, p.last().push(s.last()))
    }
}

pub open spec fn is_digit(b: u8) -> bool {
    48 <= b <= 57
}

pub open spec fn all_digits(s: Seq<u8>) -> bool {
    forall|i: int| 0 <= i < s.len() ==> is_digit(#[trigger] s[i])
}

/// The number that a string of decimal digits spells.
pub open spec fn digits_value(s: Seq<u8>) -> nat
    decreases s.len(),
{
    if s.len() == 0 {
        0
    } else {
        digits_value(s.drop_last()) * 10 + (s.last() - 48) as nat
    }
}

/// The token without one leading `+`.
pub open spec fn unsigned_part(t: Seq<u8>) -> Seq<u8> {
    if t.len() > 0 && t[0] == 43 {
        t.drop_first()
    } else {
        t
    }
}

/// A token read as an unsigned 8-bit decimal number: an optional `+`, then
/// one or more digits whose value is at most 255.
pub open spec fn parse_u8(t: Seq<u8>) -> Option<u8> {
    let d = unsigned_part(t);
    if d.len() > 0 && all_digits(d) && digits_value(d) <= 255 {
        Some(digits_value(d) as u8)
    } else {
        None
    }
}

/// The frame values of a comma-separated blob: `None` if any piece is not a
/// number; otherwise the first 25 numbers, with 0 in the slots left over.
pub open spec fn blob_values(b: Seq<u8>) -> Option<Seq<u8>> {
    let toks = split_commas(b);
    if forall|k: int| 0 <= k < toks.len() ==> (#[trigger] parse_u8(toks[k])) is Some {
        Some(
            Seq::new(
                25,
                |i: int|
                    if i < toks.len() {
                        parse_u8(toks[i])->Some_0
                    } else {
                        0u8
                    },
            ),
        )
    } else {
        None
    }
}

/// The line without one trailing carriage return.
pub open spec fn strip_cr(l: Seq<u8>) -> Seq<u8> {
    if l.len() > 0 && l.last() == 13 {
        l.drop_last()
    } else {
        l
    }
}

/// The frame that one line holds, if any: separator lines and lines whose
/// value blob does not parse hold none.
pub open spec fn parse_line(raw: Seq<u8>) -> Option<Seq<u8>> {
    let l = strip_cr(raw);
    if is_separator(l) {
        None
    } else {
        blob_values(last_token(l))
    }
}

/// Index of the first newline, or the length if there is none.
pub open spec fn nl_index(s: Seq<u8>) -> nat
    decreases s.len(),
{
    if s.len() == 0 {
        0
    } else if s[0] == 10 {
        0
    } else {
        1 + nl_index(s.drop_first())
    }
}

/// The frames of a text, line by line, skipping lines that hold none.
pub open spec fn decode_text(t: Seq<u8>) -> Seq<Seq<u8>>
    decreases t.len(),
{
    if t.len() == 0 {
        seq![]
    } else {
        let e = nl_index(t);
        let line = if e < t.len() {
            t.subrange(0, e as int)
        } else {
            t
        };
        let rest = if e < t.len() {
            t.subrange(e as int + 1, t.len() as int)
        } else {
            seq![]
        };
        match parse_line(line) {
            Some(f) => seq![f] + decode_text(rest),
            None => decode_text(rest),
        }
    }
}

proof fn lemma_value_prefix(s: Seq<u8>, m: int)
    requires
        0 <= m <= s.len(),
        all_digits(s),
    ensures
        digits_value(s.subrange(0, m)) <= digits_value(s),
    decreases s.len(),
{
    if m == s.len() {
        assert(s.subrange(0, m) =~= s);
    } else {
        let d = s.drop_last();
        assert(all_digits(d));
        lemma_value_prefix(d, m);
        assert(d.subrange(0, m) =~= s.subrange(0, m));
    }
}

/// Reads `t[a..b]` as an unsigned 8-bit decimal number.
fn parse_u8_at(t: &[u8], a: usize, b: usize) -> (r: Option<u8>)
    requires
        a <= b <= t@.len(),
    ensures
        r == parse_u8(t@.subrange(a as int, b as int)),
{
    let ghost tok = t@.subrange(a as int, b as int);
    let mut s: usize = a;
    if a < b && t[a] == 43 {
        s = a + 1;
        assert(tok.drop_first() =~= t@.subrange(s as int, b as int));
    } else {
        assert(tok =~= t@.subrange(s as int, b as int));
    }
    let ghost d = t@.subrange(s as int, b as int);
    assert(d == unsigned_part(tok));
    if s == b {
        return None;
    }
    let mut acc: u32 = 0;
    let mut k: usize = s;
    while k < b
        invariant
            a <= s <= k <= b <= t@.len(),
            d == t@.subrange(s as int, b as int),
            tok == t@.subrange(a as int, b as int),
            d == unsigned_part(tok),
            d.len() > 0,
            all_digits(t@.subrange(s as int, k as int)),
            acc as nat == digits_value(t@.subrange(s as int, k as int)),
            acc <= 255,
        decreases b - k,
    {
        let c = t[k];
        if c < 48 || c > 57 {
            assert(d[k - s] == c);
            assert(!is_digit(d[k - s]));
            assert(!all_digits(d));
            return None;
        }
        proof {
            let p = t@.subrange(s as int, k + 1);
            assert(p.drop_last() =~= t@.subrange(s as int, k as int));
            assert(all_digits(p));
        }
        acc = acc * 10 + (c - 48) as u32;
        proof {
            let p = t@.subrange(s as int, k + 1);
            assert(p.last() == c);
            assert(acc as nat == digits_value(p));
        }
        if acc > 255 {
            proof {
                let p = t@.subrange(s as int, k + 1);
                if all_digits(d) {
                    lemma_value_prefix(d, k + 1 - s);
                    assert(d.subrange(0, k + 1 - s) =~= p);
                }
                assert(parse_u8(tok) is None);
            }
            return None;
        }
        k += 1;
    }
    assert(t@.subrange(s as int, k as int) =~= d);
    Some(acc as u8)
}

/// Reads the comma-separated values of `t[lo..hi]` into a frame's values.
fn parse_blob(t: &[u8], lo: usize, hi: usize) -> (r: Option<[u8; 25]>)
    requires
        lo <= hi <= t@.len(),
    ensures
        r is Some <==> blob_values(t@.subrange(lo as int, hi as int)) is Some,
        r is Some ==> r->Some_0@ == blob_values(t@.subrange(lo as int, hi as int))->Some_0,
{
    let mut leds: [u8; 25] = [0u8; 25];
    let mut ok = true;
    let mut count: usize = 0;
    let mut start: usize = lo;
    let mut j: usize = lo;
    let ghost mut done: Seq<Seq<u8>> = seq![];
    assert(t@.subrange(lo as int, lo as int) =~= seq![]);
    assert(split_commas(seq![]) =~= done.push(t@.subrange(start as int, j as int)));
    while j < hi
        invariant
            lo <= start <= j <= hi <= t@.len(),
            leds@.len() == 25,
            count == done.len(),
            count <= j - lo,
            split_commas(t@.subrange(lo as int, j as int)) == done.push(
                t@.subrange(start as int, j as int),
            ),
            ok <==> forall|k: int| 0 <= k < done.len() ==> (#[trigger] parse_u8(done[k])) is Some,
            ok ==> forall|k: int|
                0 <= k < 25 ==> leds@[k] == if k < done.len() {
                    parse_u8(done[k])->Some_0
                } else {
                    0u8
                },
        decreases hi - j,
    {
        let ghost pre = t@.subrange(lo as int, j as int);
        let ghost next = t@.subrange(lo as int, j + 1);
        assert(next.drop_last() =~= pre);
        if t[j] == 44 {
            let v = parse_u8_at(t, start, j);
            let ghost tok = t@.subrange(start as int, j as int);
            match v {
                Some(x) => {
                    if ok && count < 25 {
                        leds[count] = x;
                    }
                },
                None => {
                    ok = false;
                },
            }
            proof {
                let nd = done.push(tok);
                if !(parse_u8(tok) is Some) {
                    assert(!(parse_u8(nd[done.len() as int]) is Some));
                }
                assert(forall|k: int| 0 <= k < done.len() ==> nd[k] == done[k]);
                done = nd;
                assert(t@.subrange(j + 1, j + 1) =~= seq![]);
                assert(split_commas(next) =~= done.push(t@.subrange(j + 1, j + 1)));
            }
            count = count + 1;
            start = j + 1;
        } else {
            proof {
                assert(t@.subrange(start as int, j + 1) =~= t@.subrange(start as int, j as int).push(
                    t@[j as int],
                ));
                assert(split_commas(next) =~= done.push(t@.subrange(start as int, j + 1)));
            }
        }
        j += 1;
    }
    let v = parse_u8_at(t, start, hi);
    let ghost tok = t@.subrange(start as int, hi as int);
    let ghost toks = done.push(tok);
    assert(toks == split_commas(t@.subrange(lo as int, hi as int)));
    assert(forall|k: int| 0 <= k < done.len() ==> toks[k] == done[k]);
    match v {
        Some(x) => {
            if ok {
                if count < 25 {
                    leds[count] = x;
                }
                assert(leds@ =~= blob_values(t@.subrange(lo as int, hi as int))->Some_0);
                Some(leds)
            } else {
                None
            }
        },
        None => {
            assert(!(parse_u8(toks[done.len() as int]) is Some));
            None
        },
    }
}

/// Whether `t[a..b]` trims to `.byte 0` or `.byte 1`.
fn is_separator_at(t: &[u8], a: usize, b: usize) -> (r: bool)
    requires
        a <= b <= t@.len(),
    ensures
        r == is_separator(t@.subrange(a as int, b as int)),
{
    let ghost l = t@.subrange(a as int, b as int);
    let mut lo: usize = a;
    while lo < b && (t[lo] == 32 || t[lo] == 9 || t[lo] == 10 || t[lo] == 11 || t[lo] == 12 || t[lo] == 13)
        invariant
            a <= lo <= b <= t@.len(),
            l == t@.subrange(a as int, b as int),
            trim_front(l) == trim_front(t@.subrange(lo as int, b as int)),
        decreases b - lo,
    {
        assert(t@.subrange(lo as int, b as int).drop_first() =~= t@.subrange(lo + 1, b as int));
        lo += 1;
    }
    assert(trim_front(l) == t@.subrange(lo as int, b as int));
    let mut hi: usize = b;
    while hi > lo && (t[hi - 1] == 32 || t[hi - 1] == 9 || t[hi - 1] == 10 || t[hi - 1] == 11 || t[hi - 1] == 12 || t[hi - 1] == 13)
        invariant
            a <= lo <= hi <= b <= t@.len(),
            l == t@.subrange(a as int, b as int),
            trim_front(l) == t@.subrange(lo as int, b as int),
            trim(l) == trim_back(t@.subrange(lo as int, hi as int)),
        decreases hi - lo,
    {
        assert(t@.subrange(lo as int, hi as int).drop_last() =~= t@.subrange(lo as int, hi - 1));
        hi -= 1;
    }
    let ghost m = t@.subrange(lo as int, hi as int);
    assert(trim(l) == m);
    if hi - lo != 7 {
        return false;
    }
    if t[lo] == 46 && t[lo + 1] == 98 && t[lo + 2] == 121 && t[lo + 3] == 116 && t[lo + 4] == 101
        && t[lo + 5] == 32 && (t[lo + 6] == 48 || t[lo + 6] == 49) {
        assert(m =~= separator(true) || m =~= separator(false));
        true
    } else {
        assert(m != separator(true)) by {
            if m == separator(true) {
                assert(m[0] == 46 && m[1] == 98 && m[2] == 121 && m[3] == 116 && m[4] == 101 && m[5] == 32 && m[6] == 48);
            }
        }
        assert(m != separator(false)) by {
            if m == separator(false) {
                assert(m[0] == 46 && m[1] == 98 && m[2] == 121 && m[3] == 116 && m[4] == 101 && m[5] == 32 && m[6] == 49);
            }
        }
        false
    }
}

/// Start of the part of `t[a..b]` after its last space (`a` if it has none).
fn last_token_start(t: &[u8], a: usize, b: usize) -> (k: usize)
    requires
        a <= b <= t@.len(),
    ensures
        a <= k <= b,
        last_token(t@.subrange(a as int, b as int)) == t@.subrange(k as int, b as int),
{
    let mut k: usize = b;
    assert(t@.subrange(b as int, b as int) =~= seq![]);
    assert(last_token(t@.subrange(a as int, b as int)) =~= last_token(t@.subrange(a as int, b as int)) + t@.subrange(b as int, b as int));
    while k > a && t[k - 1] != 32
        invariant
            a <= k <= b <= t@.len(),
            last_token(t@.subrange(a as int, b as int)) == last_token(t@.subrange(a as int, k as int)) + t@.subrange(k as int, b as int),
        decreases k - a,
    {
        let ghost p = t@.subrange(a as int, k as int);
        assert(p.drop_last() =~= t@.subrange(a as int, k - 1));
        assert(t@.subrange(k - 1, b as int) =~= seq![t@[k - 1]] + t@.subrange(k as int, b as int));
        assert(last_token(p) == last_token(p.drop_last()).push(t@[k - 1]));
        assert(last_token(p) + t@.subrange(k as int, b as int) =~= last_token(t@.subrange(a as int, k - 1)) + t@.subrange(k - 1, b as int));
        k -= 1;
    }
    assert(last_token(t@.subrange(a as int, k as int)) =~= seq![]);
    assert(seq![] + t@.subrange(k as int, b as int) =~= t@.subrange(k as int, b as int));
    k
}

/// The frame held by the line `t[a..b]` (without its newline), if any.
fn parse_line_at(t: &[u8], a: usize, b: usize) -> (r: Option<[u8; 25]>)
    requires
        a <= b <= t@.len(),
    ensures
        r is Some <==> parse_line(t@.subrange(a as int, b as int)) is Some,
        r is Some ==> r->Some_0@ == parse_line(t@.subrange(a as int, b as int))->Some_0,
{
    let ghost raw = t@.subrange(a as int, b as int);
    let mut e: usize = b;
    if b > a && t[b - 1] == 13 {
        e = b - 1;
        assert(raw.drop_last() =~= t@.subrange(a as int, e as int));
    }
    assert(strip_cr(raw) =~= t@.subrange(a as int, e as int));
    if is_separator_at(t, a, e) {
        return None;
    }
    let k = last_token_start(t, a, e);
    parse_blob(t, k, e)
}

/// The frames that a text in the `.byte` format holds, in order. Separator
/// lines and lines whose values do not all parse are skipped.
pub fn decode_document(t: &[u8]) -> (r: Vec<Frame>)
    ensures
        frame_views(r@) == decode_text(t@),
{
    let n = t.len();
    let mut out: Vec<Frame> = Vec::new();
    let mut i: usize = 0;
    assert(t@.subrange(0, n as int) =~= t@);
    while i < n
        invariant
            n == t@.len(),
            i <= n,
            frame_views(out@) + decode_text(t@.subrange(i as int, n as int)) == decode_text(t@),
        decreases n - i,
    {
        let ghost s = t@.subrange(i as int, n as int);
        let mut j: usize = i;
        while j < n && t[j] != 10
            invariant
                i <= j <= n == t@.len(),
                s == t@.subrange(i as int, n as int),
                nl_index(s) == (j - i) + nl_index(t@.subrange(j as int, n as int)),
            decreases n - j,
        {
            assert(t@.subrange(j as int, n as int).drop_first() =~= t@.subrange(j + 1, n as int));
            j += 1;
        }
        assert(nl_index(s) == j - i) by {
            if j < n {
                assert(t@.subrange(j as int, n as int)[0] == 10);
            } else {
                assert(t@.subrange(j as int, n as int).len() == 0);
            }
        }
        let line = parse_line_at(t, i, j);
        let ghost before = out@;
        let ghost rest = if j < n { t@.subrange(j + 1, n as int) } else { seq![] };
        proof {
            if j < n {
                assert(s.subrange(0, (j - i) as int) =~= t@.subrange(i as int, j as int));
                assert(s.subrange((j - i) + 1, s.len() as int) =~= rest);
            } else {
                assert(s =~= t@.subrange(i as int, j as int));
            }
        }
        match line {
            Some(leds) => {
                out.push(Frame::with_values(leds));
                assert(frame_views(out@) =~= frame_views(before).push(leds@));
                assert(frame_views(out@) + decode_text(rest) =~= frame_views(before) + (seq![leds@] + decode_text(rest)));
            },
            None => {},
        }
        if j < n {
            i = j + 1;
        } else {
            i = n;
            assert(t@.subrange(n as int, n as int) =~= rest);
        }
    }
    assert(decode_text(t@.subrange(n as int, n as int)) =~= seq![]);
    assert(frame_views(out@) + seq![] =~= frame_views(out@));
    out
}

} // verus!
