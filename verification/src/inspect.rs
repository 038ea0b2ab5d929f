use vstd::prelude::*;

use crate::patterns::{NOP_SF, TLE_SF};
use crate::record::SfRecord;
use crate::state::{position_text, Position};
use crate::text::{chosen_encoding, decode_chars, decoded, escape_chars, escaped, sniff, string_of, EncodingMode};
use crate::triplet::{triplets, triplets_from, FQN_ATTRIBUTE_NAME, T_ATTR_VALUE, T_FQN};

// Each dump line is the position and the structured field's data, nothing
// else. Introducer fields, declared code pages, qualifiers and any other
// triplet that describes the field rather than carrying its content are not
// printed.
verus! {

/// Unicode White_Space, the characters `char::is_whitespace` accepts.
pub open spec fn is_whitespace(c: char) -> bool {
    let n = c as u32;
    ||| 0x09 <= n <= 0x0d
    ||| n == 0x20
    ||| n == 0x85
    ||| n == 0xa0
    ||| n == 0x1680
    ||| 0x2000 <= n <= 0x200a
    ||| n == 0x2028
    ||| n == 0x2029
    ||| n == 0x202f
    ||| n == 0x205f
    ||| n == 0x3000
}

/// `s` without its trailing whitespace.
pub open spec fn trimmed_end(s: Seq<char>) -> Seq<char>
    decreases s.len(),
{
    if s.len() > 0 && is_whitespace(s.last()) {
        trimmed_end(s.drop_last())
    } else {
        s
    }
}

/// `s` without any trailing `c`.
pub open spec fn trimmed_end_of(s: Seq<char>, c: char) -> Seq<char>
    decreases s.len(),
{
    if s.len() > 0 && s.last() == c {
        trimmed_end_of(s.drop_last(), c)
    } else {
        s
    }
}

/// The pieces of `s` between newlines, as `str::split('\n')` yields them:
/// one more piece than there are newlines.
pub open spec fn split_lines(s: Seq<char>) -> Seq<Seq<char>>
    decreases s.len(),
{
    if s.len() == 0 {
        seq![seq![]]
    } else {
        let rest = split_lines(s.drop_last());
        if s.last() == '\n' {
            rest.push(seq![])
        } else {
            rest.update(rest.len() - 1, rest.last().push(s.last()))
        }
    }
}

proof fn lemma_split_lines_nonempty(s: Seq<char>)
    ensures
        split_lines(s).len() >= 1,
    decreases s.len(),
{
    if s.len() > 0 {
        lemma_split_lines_nonempty(s.drop_last());
    }
}

/// Text as the dump shows it: decoded in the mode's encoding, without
/// trailing whitespace, control characters escaped.
pub open spec fn rendered(bytes: Seq<u8>, mode: EncodingMode) -> Seq<char> {
    escaped(trimmed_end(decoded(bytes, chosen_encoding(bytes, mode))))
}

/// The dump line of one line of a NOP's text.
pub open spec fn nop_line(pos: Position, piece: Seq<char>) -> Seq<char> {
    position_text(pos) + ": NOP "@ + escaped(trimmed_end_of(piece, '\r'))
}

/// A NOP's data is UndfData, free-form bytes with no architectural
/// definition, so the whole body is the content: one dump line per line of
/// its text, each keeping the position, or a bare `NOP` line for a blank one.
pub open spec fn nop_lines(pos: Position, data: Seq<u8>, mode: EncodingMode) -> Seq<Seq<char>> {
    let body = trimmed_end(decoded(data, chosen_encoding(data, mode)));
    if body.len() == 0 {
        seq![position_text(pos) + ": NOP"@]
    } else {
        Seq::new(split_lines(body).len(), |k: int| nop_line(pos, split_lines(body)[k]))
    }
}

/// The attribute name of a TLE: the name of its last X'02' fully qualified
/// name of type X'0B'.
pub open spec fn tle_name(ts: Seq<(u8, Seq<u8>)>) -> Option<Seq<u8>>
    decreases ts.len(),
{
    if ts.len() == 0 {
        None
    } else {
        let (id, body) = ts.last();
        if id == T_FQN && body.len() >= 2 && body[0] == FQN_ATTRIBUTE_NAME {
            Some(body.subrange(2, body.len() as int))
        } else {
            tle_name(ts.drop_last())
        }
    }
}

/// The attribute value of a TLE: the value of its last X'36' triplet.
pub open spec fn tle_value(ts: Seq<(u8, Seq<u8>)>) -> Option<Seq<u8>>
    decreases ts.len(),
{
    if ts.len() == 0 {
        None
    } else {
        let (id, body) = ts.last();
        if id == T_ATTR_VALUE && body.len() >= 2 {
            Some(body.subrange(2, body.len() as int))
        } else {
            tle_value(ts.drop_last())
        }
    }
}

pub open spec fn rendered_or_empty(raw: Option<Seq<u8>>, mode: EncodingMode) -> Seq<char> {
    match raw {
        Some(b) => rendered(b, mode),
        None => seq![],
    }
}

/// A TLE's content is the attribute it tags the page or page group with:
/// the name from the X'02' FQN and the value from X'36'. Every other triplet
/// describes the field and is stepped over.
pub open spec fn tle_line(pos: Position, data: Seq<u8>, mode: EncodingMode) -> Seq<char> {
    let ts = triplets_from(data, 0);
    position_text(pos) + ": TLE "@ + rendered_or_empty(tle_name(ts), mode) + " = "@
        + rendered_or_empty(tle_value(ts), mode)
}

/// An X'36' triplet that carries an attribute value (two reserved bytes,
/// then the value).
pub open spec fn is_value_triplet(t: (u8, Seq<u8>)) -> bool {
    t.0 == T_ATTR_VALUE && t.1.len() >= 2
}

/// An X'02' FQN triplet of type X'0B', which carries an attribute name.
pub open spec fn is_name_triplet(t: (u8, Seq<u8>)) -> bool {
    t.0 == T_FQN && t.1.len() >= 2 && t.1[0] == FQN_ATTRIBUTE_NAME
}

proof fn lemma_value_at(ts: Seq<(u8, Seq<u8>)>, k: int)
    requires
        0 <= k < ts.len(),
        is_value_triplet(ts[k]),
        forall|j: int| k < j < ts.len() ==> !is_value_triplet(#[trigger] ts[j]),
    ensures
        tle_value(ts) == Some(ts[k].1.subrange(2, ts[k].1.len() as int)),
    decreases ts.len(),
{
    let n = ts.len() - 1;
    if k < n {
        let init = ts.drop_last();
        assert(!is_value_triplet(ts[n]));
        assert(init[k] == ts[k]);
        assert forall|j: int| k < j < init.len() implies !is_value_triplet(#[trigger] init[j]) by {
            assert(init[j] == ts[j]);
        }
        lemma_value_at(init, k);
    }
}

proof fn lemma_no_value(ts: Seq<(u8, Seq<u8>)>)
    requires
        forall|j: int| 0 <= j < ts.len() ==> !is_value_triplet(#[trigger] ts[j]),
    ensures
        tle_value(ts) is None,
    decreases ts.len(),
{
    if ts.len() > 0 {
        let init = ts.drop_last();
        assert(!is_value_triplet(ts[ts.len() - 1]));
        assert forall|j: int| 0 <= j < init.len() implies !is_value_triplet(#[trigger] init[j]) by {
            assert(init[j] == ts[j]);
        }
        lemma_no_value(init);
    }
}

/// A TLE's attribute value is the body, past its two reserved bytes, of its
/// last X'36' triplet that has them, and it has none without one.
pub proof fn lemma_tle_value_is_the_last(ts: Seq<(u8, Seq<u8>)>)
    ensures
        forall|k: int|
            0 <= k < ts.len() && is_value_triplet(#[trigger] ts[k]) && (forall|j: int|
                k < j < ts.len() ==> !is_value_triplet(#[trigger] ts[j])) ==> tle_value(ts) == Some(
                ts[k].1.subrange(2, ts[k].1.len() as int),
            ),
        (forall|j: int| 0 <= j < ts.len() ==> !is_value_triplet(#[trigger] ts[j])) ==> tle_value(ts) is None,
{
    assert forall|k: int|
        0 <= k < ts.len() && is_value_triplet(#[trigger] ts[k]) && (forall|j: int|
            k < j < ts.len() ==> !is_value_triplet(#[trigger] ts[j])) implies tle_value(ts) == Some(
        ts[k].1.subrange(2, ts[k].1.len() as int),
    ) by {
        lemma_value_at(ts, k);
    }
    if forall|j: int| 0 <= j < ts.len() ==> !is_value_triplet(#[trigger] ts[j]) {
        lemma_no_value(ts);
    }
}

proof fn lemma_name_at(ts: Seq<(u8, Seq<u8>)>, k: int)
    requires
        0 <= k < ts.len(),
        is_name_triplet(ts[k]),
        forall|j: int| k < j < ts.len() ==> !is_name_triplet(#[trigger] ts[j]),
    ensures
        tle_name(ts) == Some(ts[k].1.subrange(2, ts[k].1.len() as int)),
    decreases ts.len(),
{
    let n = ts.len() - 1;
    if k < n {
        let init = ts.drop_last();
        assert(!is_name_triplet(ts[n]));
        assert(init[k] == ts[k]);
        assert forall|j: int| k < j < init.len() implies !is_name_triplet(#[trigger] init[j]) by {
            assert(init[j] == ts[j]);
        }
        lemma_name_at(init, k);
    }
}

proof fn lemma_no_name(ts: Seq<(u8, Seq<u8>)>)
    requires
        forall|j: int| 0 <= j < ts.len() ==> !is_name_triplet(#[trigger] ts[j]),
    ensures
        tle_name(ts) is None,
    decreases ts.len(),
{
    if ts.len() > 0 {
        let init = ts.drop_last();
        assert(!is_name_triplet(ts[ts.len() - 1]));
        assert forall|j: int| 0 <= j < init.len() implies !is_name_triplet(#[trigger] init[j]) by {
            assert(init[j] == ts[j]);
        }
        lemma_no_name(init);
    }
}

/// A TLE's attribute name is the name, past the FQN type and format bytes,
/// of its last X'02' FQN of type X'0B', and it has none without one.
pub proof fn lemma_tle_name_is_the_last(ts: Seq<(u8, Seq<u8>)>)
    ensures
        forall|k: int|
            0 <= k < ts.len() && is_name_triplet(#[trigger] ts[k]) && (forall|j: int|
                k < j < ts.len() ==> !is_name_triplet(#[trigger] ts[j])) ==> tle_name(ts) == Some(
                ts[k].1.subrange(2, ts[k].1.len() as int),
            ),
        (forall|j: int| 0 <= j < ts.len() ==> !is_name_triplet(#[trigger] ts[j])) ==> tle_name(ts) is None,
{
    assert forall|k: int|
        0 <= k < ts.len() && is_name_triplet(#[trigger] ts[k]) && (forall|j: int|
            k < j < ts.len() ==> !is_name_triplet(#[trigger] ts[j])) implies tle_name(ts) == Some(
        ts[k].1.subrange(2, ts[k].1.len() as int),
    ) by {
        lemma_name_at(ts, k);
    }
    if forall|j: int| 0 <= j < ts.len() ==> !is_name_triplet(#[trigger] ts[j]) {
        lemma_no_name(ts);
    }
}

/// Text decoded in the encoding `e` as the dump shows it, or nothing.
pub open spec fn shown_in(raw: Option<Seq<u8>>, e: crate::text::Encoding) -> Seq<char> {
    match raw {
        Some(b) => escaped(trimmed_end(decoded(b, e))),
        None => seq![],
    }
}

/// Under a forced encoding nothing is sniffed: a TLE's line shows both its
/// attribute name and its attribute value (the name of its last X'0B' FQN
/// and the value of its last X'36') decoded byte by byte in the forced
/// encoding, Latin-1 for ASCII and CP500 for EBCDIC, whatever the bytes are.
pub proof fn lemma_forced_encoding_decodes_name_and_value(pos: Position, data: Seq<u8>, mode: EncodingMode)
    requires
        mode != EncodingMode::Auto,
    ensures
        ({
            let e = if mode == EncodingMode::Ascii {
                crate::text::Encoding::Ascii
            } else {
                crate::text::Encoding::Ebcdic
            };
            let ts = triplets_from(data, 0);
            tle_line(pos, data, mode) == position_text(pos) + ": TLE "@ + shown_in(tle_name(ts), e)
                + " = "@ + shown_in(tle_value(ts), e)
        }),
{
}

/// Whether a record of this type is dumped.
pub open spec fn is_dumped(type_id: Seq<u8>) -> bool {
    type_id == NOP_SF@ || type_id == TLE_SF@
}

/// The dump lines of a record: those of a NOP or a TLE, none for any other
/// structured field.
pub open spec fn record_lines(pos: Position, type_id: Seq<u8>, data: Seq<u8>, mode: EncodingMode) -> Seq<
    Seq<char>,
> {
    if type_id == NOP_SF@ {
        nop_lines(pos, data, mode)
    } else if type_id == TLE_SF@ {
        seq![tle_line(pos, data, mode)]
    } else {
        seq![]
    }
}

/// Every dump line of a record starts with the record's position: the
/// dumper reports where everything it dumps sits.
pub proof fn lemma_lines_carry_the_position(pos: Position, type_id: Seq<u8>, data: Seq<u8>, mode: EncodingMode)
    ensures
        forall|k: int|
            0 <= k < record_lines(pos, type_id, data, mode).len() ==> (#[trigger] record_lines(
                pos,
                type_id,
                data,
                mode,
            )[k]).subrange(0, position_text(pos).len() as int) == position_text(pos),
{
    let pt = position_text(pos);
    let lines = record_lines(pos, type_id, data, mode);
    assert forall|k: int| 0 <= k < lines.len() implies (#[trigger] lines[k]).subrange(0, pt.len() as int) == pt by {
        let line = lines[k];
        if type_id == NOP_SF@ {
            let body = trimmed_end(decoded(data, chosen_encoding(data, mode)));
            if body.len() == 0 {
                assert(line == pt + ": NOP"@);
            } else {
                assert(line == pt + (": NOP "@ + escaped(trimmed_end_of(split_lines(body)[k], '\r'))));
            }
        } else {
            let ts = triplets_from(data, 0);
            assert(line == pt + (": TLE "@ + rendered_or_empty(tle_name(ts), mode) + " = "@
                + rendered_or_empty(tle_value(ts), mode)));
        }
        assert(line.subrange(0, pt.len() as int) =~= pt);
    }
}

pub open spec fn strings_view(v: Seq<String>) -> Seq<Seq<char>> {
    Seq::new(v.len(), |k: int| v[k]@)
}

/// `s` without its trailing whitespace.
pub fn trim_end(s: &Vec<char>) -> (t: Vec<char>)
    ensures
        t@ == trimmed_end(s@),
{
    let mut n = s.len();
    proof {
        assert(s@.take(n as int) == s@);
    }
    while n > 0 && is_whitespace_exec(s[n - 1])
        invariant
            0 <= n <= s@.len(),
            trimmed_end(s@) == trimmed_end(s@.take(n as int)),
        decreases n,
    {
        proof {
            assert(s@.take(n as int).drop_last() == s@.take(n - 1));
        }
        n -= 1;
    }
    let mut t: Vec<char> = Vec::new();
    let mut i: usize = 0;
    while i < n
        invariant
            0 <= i <= n <= s@.len(),
            t@ == s@.take(i as int),
        decreases n - i,
    {
        t.push(s[i]);
        i += 1;
        proof {
            assert(t@ =~= s@.take(i as int));
        }
    }
    t
}

/// `s` without any trailing `c`.
pub fn trim_end_of(s: &Vec<char>, c: char) -> (t: Vec<char>)
    ensures
        t@ == trimmed_end_of(s@, c),
{
    let mut n = s.len();
    proof {
        assert(s@.take(n as int) == s@);
    }
    while n > 0 && s[n - 1] == c
        invariant
            0 <= n <= s@.len(),
            trimmed_end_of(s@, c) == trimmed_end_of(s@.take(n as int), c),
        decreases n,
    {
        proof {
            assert(s@.take(n as int).drop_last() == s@.take(n - 1));
        }
        n -= 1;
    }
    let mut t: Vec<char> = Vec::new();
    let mut i: usize = 0;
    while i < n
        invariant
            0 <= i <= n <= s@.len(),
            t@ == s@.take(i as int),
        decreases n - i,
    {
        t.push(s[i]);
        i += 1;
        proof {
            assert(t@ =~= s@.take(i as int));
        }
    }
    proof {
        assert(s@.take(n as int) == trimmed_end_of(s@.take(n as int), c));
    }
    t
}

fn is_whitespace_exec(c: char) -> (b: bool)
    ensures
        b == is_whitespace(c),
{
    let n = c as u32;
    (0x09 <= n && n <= 0x0d) || n == 0x20 || n == 0x85 || n == 0xa0 || n == 0x1680 || (0x2000 <= n
        && n <= 0x200a) || n == 0x2028 || n == 0x2029 || n == 0x202f || n == 0x205f || n == 0x3000
}

/// The pieces of `s` between newlines.
pub fn split_lines_exec(s: &Vec<char>) -> (pieces: Vec<Vec<char>>)
    ensures
        pieces@.len() == split_lines(s@).len(),
        forall|k: int| 0 <= k < pieces@.len() ==> #[trigger] pieces@[k]@ == split_lines(s@)[k],
{
    let mut pieces: Vec<Vec<char>> = Vec::new();
    let mut cur: Vec<char> = Vec::new();
    let mut i: usize = 0;
    while i < s.len()
        invariant
            0 <= i <= s@.len(),
            pieces@.len() + 1 == split_lines(s@.take(i as int)).len(),
            forall|k: int| 0 <= k < pieces@.len() ==> #[trigger] pieces@[k]@ == split_lines(s@.take(i as int))[k],
            cur@ == split_lines(s@.take(i as int)).last(),
        decreases s@.len() - i,
    {
        let ghost prev = split_lines(s@.take(i as int));
        proof {
            assert(s@.take(i + 1).drop_last() == s@.take(i as int));
            lemma_split_lines_nonempty(s@.take(i as int));
        }
        let c = s[i];
        if c == '\n' {
            let mut done: Vec<char> = Vec::new();
            std::mem::swap(&mut done, &mut cur);
            pieces.push(done);
        } else {
            cur.push(c);
        }
        i += 1;
        proof {
            let next = split_lines(s@.take(i as int));
            if c == '\n' {
                assert(next == prev.push(seq![]));
            } else {
                assert(next == prev.update(prev.len() - 1, prev.last().push(c)));
            }
            assert forall|k: int| 0 <= k < pieces@.len() implies #[trigger] pieces@[k]@ == next[k] by {
                if c == '\n' && k == pieces@.len() - 1 {
                } else {
                    assert(pieces@[k]@ == prev[k]);
                }
            }
        }
    }
    pieces.push(cur);
    proof {
        assert(s@.take(i as int) == s@);
        assert forall|k: int| 0 <= k < pieces@.len() implies #[trigger] pieces@[k]@ == split_lines(s@)[k] by {
            if k < pieces@.len() - 1 {
            }
        }
    }
    pieces
}

/// Text as the dump shows it.
fn render(bytes: &[u8], mode: EncodingMode) -> (r: Vec<char>)
    ensures
        r@ == rendered(bytes@, mode),
{
    let encoding = match mode {
        EncodingMode::Auto => sniff(bytes),
        EncodingMode::Ascii => crate::text::Encoding::Ascii,
        EncodingMode::Ebcdic => crate::text::Encoding::Ebcdic,
    };
    let text = decode_chars(bytes, encoding);
    let body = trim_end(&text);
    escape_chars(&body)
}

/// The text of a position, followed by `tail`.
fn line_of(pos: Position, tail: &str) -> (s: String)
    ensures
        s@ == position_text(pos) + tail@,
{
    let mut s = pos.to_string();
    s.append(tail);
    s
}

/// Dumps NOP and TLE records, counting them.
pub struct Inspector {
    encoding: EncodingMode,
    count: usize,
}

impl View for Inspector {
    type V = (EncodingMode, usize);

    closed spec fn view(&self) -> (EncodingMode, usize) {
        (self.encoding, self.count)
    }
}

impl Inspector {
    /// An inspector that decodes text in the given mode and has dumped
    /// nothing yet.
    pub fn new(encoding: EncodingMode) -> (i: Self)
        ensures
            i@ == (encoding, 0usize),
    {
        Inspector { encoding, count: 0 }
    }

    /// How many records have been dumped.
    pub fn count(&self) -> (n: usize)
        ensures
            n == self@.1,
    {
        self.count
    }

    /// The dump lines of a record found at `pos`; a NOP or a TLE is counted.
    pub fn record(&mut self, pos: Position, rec: &SfRecord) -> (lines: Vec<String>)
        requires
            is_dumped(rec.type_id@) ==> old(self)@.1 < usize::MAX,
        ensures
            strings_view(lines@) == record_lines(pos, rec.type_id@, rec.data@, old(self)@.0),
            final(self)@ == (old(self)@.0, (old(self)@.1 + if is_dumped(rec.type_id@) {
                1int
            } else {
                0int
            }) as usize),
    {
        let t = rec.type_id;
        let is_nop = t[0] == NOP_SF[0] && t[1] == NOP_SF[1] && t[2] == NOP_SF[2];
        let is_tle = t[0] == TLE_SF[0] && t[1] == TLE_SF[1] && t[2] == TLE_SF[2];
        proof {
            assert(is_nop == (rec.type_id@ == NOP_SF@)) by {
                if is_nop {
                    assert(rec.type_id@ =~= NOP_SF@);
                }
            }
            assert(is_tle == (rec.type_id@ == TLE_SF@)) by {
                if is_tle {
                    assert(rec.type_id@ =~= TLE_SF@);
                }
            }
        }
        if is_nop {
            self.nop(pos, rec)
        } else if is_tle {
            self.tle(pos, rec)
        } else {
            let lines: Vec<String> = Vec::new();
            proof {
                assert(strings_view(lines@) =~= Seq::<Seq<char>>::empty());
            }
            lines
        }
    }

    fn nop(&mut self, pos: Position, rec: &SfRecord) -> (lines: Vec<String>)
        requires
            old(self)@.1 < usize::MAX,
        ensures
            strings_view(lines@) == nop_lines(pos, rec.data@, old(self)@.0),
            final(self)@ == (old(self)@.0, (old(self)@.1 + 1) as usize),
    {
        let encoding = match self.encoding {
            EncodingMode::Auto => sniff(rec.data.as_slice()),
            EncodingMode::Ascii => crate::text::Encoding::Ascii,
            EncodingMode::Ebcdic => crate::text::Encoding::Ebcdic,
        };
        let text = decode_chars(rec.data.as_slice(), encoding);
        let body = trim_end(&text);
        let mut lines: Vec<String> = Vec::new();
        if body.len() == 0 {
            lines.push(line_of(pos, ": NOP"));
            proof {
                assert(strings_view(lines@) =~= nop_lines(pos, rec.data@, self@.0));
            }
        } else {
            // one output line per line of content, each keeping the position
            let pieces = split_lines_exec(&body);
            let ghost spec_pieces = split_lines(body@);
            let mut k: usize = 0;
            while k < pieces.len()
                invariant
                    0 <= k <= pieces@.len(),
                    pieces@.len() == spec_pieces.len(),
                    forall|m: int| 0 <= m < pieces@.len() ==> #[trigger] pieces@[m]@ == spec_pieces[m],
                    lines@.len() == k,
                    forall|m: int| 0 <= m < k ==> #[trigger] lines@[m]@ == nop_line(pos, spec_pieces[m]),
                decreases pieces@.len() - k,
            {
                let piece = trim_end_of(&pieces[k], '\r');
                let esc = escape_chars(&piece);
                let mut line = line_of(pos, ": NOP ");
                line.append(string_of(&esc).as_str());
                proof {
                    assert(pieces@[k as int]@ == spec_pieces[k as int]);
                }
                lines.push(line);
                k += 1;
            }
            proof {
                assert(strings_view(lines@) =~= nop_lines(pos, rec.data@, self@.0));
            }
        }
        self.count += 1;
        lines
    }

    fn tle(&mut self, pos: Position, rec: &SfRecord) -> (lines: Vec<String>)
        requires
            old(self)@.1 < usize::MAX,
        ensures
            strings_view(lines@) == seq![tle_line(pos, rec.data@, old(self)@.0)],
            final(self)@ == (old(self)@.0, (old(self)@.1 + 1) as usize),
    {
        let ghost all = triplets_from(rec.data@, 0);
        let mut it = triplets(rec.data.as_slice());
        let mut name: Option<&[u8]> = None;
        let mut value: Option<&[u8]> = None;
        let ghost mut done: Seq<(u8, Seq<u8>)> = seq![];
        loop
            invariant
                done + it.remaining() == all,
                all == triplets_from(rec.data@, 0),
                match name {
                    Some(n) => tle_name(done) == Some(n@),
                    None => tle_name(done) is None,
                },
                match value {
                    Some(v) => tle_value(done) == Some(v@),
                    None => tle_value(done) is None,
                },
                it.left() >= 0,
            ensures
                done == all,
                match name {
                    Some(n) => tle_name(done) == Some(n@),
                    None => tle_name(done) is None,
                },
                match value {
                    Some(v) => tle_value(done) == Some(v@),
                    None => tle_value(done) is None,
                },
            decreases it.left(),
        {
            let ghost before = it.remaining();
            match it.next() {
                Some(t) => {
                    proof {
                        assert(before == seq![t@] + before.drop_first());
                        assert(done.push(t@) + it.remaining() == all);
                        assert(done.push(t@).drop_last() == done);
                        done = done.push(t@);
                    }
                    if t.id == T_FQN {
                        if let Some(fqn) = t.as_fqn() {
                            if fqn.fqn_type == FQN_ATTRIBUTE_NAME {
                                name = Some(fqn.name);
                            }
                        }
                    } else if t.id == T_ATTR_VALUE {
                        if let Some(raw) = t.as_attr_value() {
                            value = Some(raw);
                        }
                    }
                },
                None => {
                    proof {
                        assert(done + it.remaining() == done);
                    }
                    break ;
                },
            }
        }
        let mut line = line_of(pos, ": TLE ");
        match name {
            Some(n) => {
                line.append(string_of(&render(n, self.encoding)).as_str());
            },
            None => {},
        }
        line.append(" = ");
        match value {
            Some(v) => {
                line.append(string_of(&render(v, self.encoding)).as_str());
            },
            None => {},
        }
        let mut lines: Vec<String> = Vec::new();
        lines.push(line);
        proof {
            assert(strings_view(lines@) =~= seq![tle_line(pos, rec.data@, self@.0)]);
        }
        self.count += 1;
        lines
    }
}

} // verus!
