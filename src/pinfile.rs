use vstd::prelude::*;
use crate::bytes::append_bytes;

verus! {

/// One line of a pin file: a tool and the versions it accepts, in order of
/// preference. A version token is an exact version or the marker `system`.
#[derive(Clone, Debug)]
pub struct PinEntry {
    pub tool: Vec<u8>,
    pub versions: Vec<Vec<u8>>,
}

/// The mathematical value of a pin entry.
pub struct PinEntryV {
    pub tool: Seq<u8>,
    pub versions: Seq<Seq<u8>>,
}

pub open spec fn bytes_views(v: Seq<Vec<u8>>) -> Seq<Seq<u8>> {
    v.map_values(|b: Vec<u8>| b@)
}

impl View for PinEntry {
    type V = PinEntryV;

    open spec fn view(&self) -> PinEntryV {
        PinEntryV { tool: self.tool@, versions: bytes_views(self.versions@) }
    }
}

pub open spec fn entries_view(v: Seq<PinEntry>) -> Seq<PinEntryV> {
    v.map_values(|e: PinEntry| e@)
}

pub open spec fn is_space(c: u8) -> bool {
    c == 32u8 || c == 9u8 || c == 13u8
}

/// A byte that separates tokens or lines.
pub open spec fn is_delim(c: u8) -> bool {
    is_space(c) || c == 10u8
}

/// A version token: non-empty, without spaces or line breaks.
pub open spec fn valid_token(t: Seq<u8>) -> bool {
    t.len() > 0 && forall|i: int| 0 <= i < t.len() ==> !is_delim(#[trigger] t[i])
}

/// A line that starts with `#` is a comment.
pub open spec fn is_comment_start(t: Seq<u8>) -> bool {
    t.len() > 0 && t[0] == 35u8
}

/// An entry that serializes to a line that parses back to it: a tool token
/// that does not start a comment and at least one valid version token.
pub open spec fn valid_entry(e: PinEntryV) -> bool {
    &&& valid_token(e.tool)
    &&& !is_comment_start(e.tool)
    &&& e.versions.len() >= 1
    &&& forall|j: int| 0 <= j < e.versions.len() ==> valid_token(#[trigger] e.versions[j])
}

/// The state of the line-oriented reader after some prefix of the input.
pub struct ParseState {
    /// Entries read so far.
    pub entries: Seq<PinEntryV>,
    /// Tokens of the current line.
    pub toks: Seq<Seq<u8>>,
    /// The token being read.
    pub tok: Seq<u8>,
    /// Lines that held a tool without any version, skipped.
    pub malformed: nat,
}

pub open spec fn start_state(entries: Seq<PinEntryV>, malformed: nat) -> ParseState {
    ParseState { entries, toks: seq![], tok: seq![], malformed }
}

pub open spec fn end_token(st: ParseState) -> ParseState {
    if st.tok.len() == 0 {
        st
    } else {
        ParseState { toks: st.toks.push(st.tok), tok: seq![], ..st }
    }
}

/// Closes the current line: blank and comment lines are dropped, a tool
/// without a version is counted as malformed, anything else is an entry.
pub open spec fn end_line(st: ParseState) -> ParseState {
    if st.toks.len() == 0 || is_comment_start(st.toks[0]) {
        ParseState { toks: seq![], ..st }
    } else if st.toks.len() == 1 {
        ParseState { toks: seq![], malformed: st.malformed + 1, ..st }
    } else {
        ParseState {
            entries: st.entries.push(PinEntryV { tool: st.toks[0], versions: st.toks.drop_first() }),
            toks: seq![],
            ..st
        }
    }
}

pub open spec fn step(st: ParseState, c: u8) -> ParseState {
    if c == 10u8 {
        end_line(end_token(st))
    } else if is_space(c) {
        end_token(st)
    } else {
        ParseState { tok: st.tok.push(c), ..st }
    }
}

/// The state after reading `s` from `st`.
pub open spec fn feed(st: ParseState, s: Seq<u8>) -> ParseState
    decreases s.len(),
{
    if s.len() == 0 {
        st
    } else {
        step(feed(st, s.drop_last()), s.last())
    }
}

/// What a pin file reads as: its entries and the number of malformed lines.
pub open spec fn parse_spec(s: Seq<u8>) -> (Seq<PinEntryV>, nat) {
    let st = end_line(end_token(feed(start_state(seq![], 0), s)));
    (st.entries, st.malformed)
}

/// Tokens joined by single spaces.
pub open spec fn join_tokens(ts: Seq<Seq<u8>>) -> Seq<u8>
    decreases ts.len(),
{
    if ts.len() == 0 {
        seq![]
    } else if ts.len() == 1 {
        ts[0]
    } else {
        join_tokens(ts.drop_last()) + seq![32u8] + ts.last()
    }
}

/// One line: the tool, then each version after a space, then a line break.
pub open spec fn line_of(e: PinEntryV) -> Seq<u8> {
    join_tokens(seq![e.tool] + e.versions) + seq![10u8]
}

/// The text of a pin file holding these entries, one line each.
pub open spec fn serialize_spec(es: Seq<PinEntryV>) -> Seq<u8>
    decreases es.len(),
{
    if es.len() == 0 {
        seq![]
    } else {
        serialize_spec(es.drop_last()) + line_of(es.last())
    }
}

proof fn lemma_feed_concat(st: ParseState, a: Seq<u8>, b: Seq<u8>)
    ensures
        feed(st, a + b) == feed(feed(st, a), b),
    decreases b.len(),
{
    if b.len() == 0 {
        assert(a + b =~= a);
    } else {
        assert((a + b).drop_last() =~= a + b.drop_last());
        lemma_feed_concat(st, a, b.drop_last());
    }
}

proof fn lemma_feed_byte(st: ParseState, c: u8)
    ensures
        feed(st, seq![c]) == step(st, c),
{
    assert(seq![c].drop_last() =~= Seq::<u8>::empty());
    assert(feed(st, Seq::<u8>::empty()) == st);
}

proof fn lemma_feed_word(st: ParseState, t: Seq<u8>)
    requires
        forall|i: int| 0 <= i < t.len() ==> !is_delim(#[trigger] t[i]),
    ensures
        feed(st, t) == (ParseState { tok: st.tok + t, ..st }),
    decreases t.len(),
{
    if t.len() == 0 {
        assert(st.tok + t =~= st.tok);
    } else {
        lemma_feed_word(st, t.drop_last());
        assert(!is_delim(t[t.len() - 1]));
        assert((st.tok + t.drop_last()).push(t.last()) =~= st.tok + t);
    }
}

proof fn lemma_feed_tokens(st: ParseState, ts: Seq<Seq<u8>>)
    requires
        st.tok.len() == 0,
        ts.len() >= 1,
        forall|j: int| 0 <= j < ts.len() ==> valid_token(#[trigger] ts[j]),
    ensures
        feed(st, join_tokens(ts)) == (ParseState {
            toks: st.toks + ts.drop_last(),
            tok: ts.last(),
            ..st
        }),
    decreases ts.len(),
{
    if ts.len() == 1 {
        assert(valid_token(ts[0]));
        lemma_feed_word(st, ts[0]);
        assert(st.toks + ts.drop_last() =~= st.toks);
        assert(st.tok + ts[0] =~= ts[0]);
    } else {
        let init = ts.drop_last();
        assert forall|j: int| 0 <= j < init.len() implies valid_token(#[trigger] init[j]) by {
            assert(valid_token(ts[j]));
        }
        lemma_feed_tokens(st, init);
        let s1 = feed(st, join_tokens(init));
        lemma_feed_concat(st, join_tokens(init), seq![32u8]);
        lemma_feed_byte(s1, 32u8);
        assert(valid_token(init.last()));
        let s2 = feed(s1, seq![32u8]);
        assert(s2 == end_token(s1));
        assert(s2.toks =~= st.toks + init);
        lemma_feed_concat(st, join_tokens(init) + seq![32u8], ts.last());
        assert(valid_token(ts[ts.len() - 1]));
        lemma_feed_word(s2, ts.last());
        assert(init =~= ts.drop_last());
        assert(Seq::<u8>::empty() + ts.last() =~= ts.last());
    }
}

proof fn lemma_feed_line(entries: Seq<PinEntryV>, m: nat, e: PinEntryV)
    requires
        valid_entry(e),
    ensures
        feed(start_state(entries, m), line_of(e)) == start_state(entries.push(e), m),
{
    let st = start_state(entries, m);
    let ts = seq![e.tool] + e.versions;
    assert forall|j: int| 0 <= j < ts.len() implies valid_token(#[trigger] ts[j]) by {
        if j > 0 {
            assert(ts[j] == e.versions[j - 1]);
        }
    }
    lemma_feed_tokens(st, ts);
    lemma_feed_concat(st, join_tokens(ts), seq![10u8]);
    let s1 = feed(st, join_tokens(ts));
    lemma_feed_byte(s1, 10u8);
    let s2 = end_token(s1);
    assert(valid_token(ts.last()));
    assert(s2.toks =~= ts);
    assert(ts[0] == e.tool);
    assert(ts.drop_first() =~= e.versions);
}

proof fn lemma_feed_serialized(es: Seq<PinEntryV>)
    requires
        forall|i: int| 0 <= i < es.len() ==> valid_entry(#[trigger] es[i]),
    ensures
        feed(start_state(seq![], 0), serialize_spec(es)) == start_state(es, 0),
    decreases es.len(),
{
    if es.len() == 0 {
        assert(feed(start_state(seq![], 0), seq![]) == start_state(seq![], 0));
        assert(es =~= Seq::<PinEntryV>::empty());
    } else {
        let init = es.drop_last();
        assert forall|i: int| 0 <= i < init.len() implies valid_entry(#[trigger] init[i]) by {
            assert(valid_entry(es[i]));
        }
        lemma_feed_serialized(init);
        lemma_feed_concat(start_state(seq![], 0), serialize_spec(init), line_of(es.last()));
        assert(valid_entry(es[es.len() - 1]));
        lemma_feed_line(init, 0, es.last());
        assert(init.push(es.last()) =~= es);
    }
}

/// Reading back the text of any valid entries gives the same entries, with no
/// malformed line.
pub proof fn lemma_pin_file_round_trip(es: Seq<PinEntryV>)
    requires
        forall|i: int| 0 <= i < es.len() ==> valid_entry(#[trigger] es[i]),
    ensures
        parse_spec(serialize_spec(es)) == (es, 0nat),
{
    lemma_feed_serialized(es);
}

/// Counts the malformed lines seen and the tokens still pending; it grows by
/// at most one per byte read, which bounds the malformed count by the input
/// length.
pub open spec fn pending_weight(st: ParseState) -> nat {
    st.malformed + st.toks.len() + (if st.tok.len() > 0 { 1nat } else { 0nat })
}

/// A pin file as read: its entries in file order, and how many lines named a
/// tool without any version and were skipped.
#[derive(Debug)]
pub struct ParsedPins {
    pub entries: Vec<PinEntry>,
    pub malformed: usize,
}

struct Reader {
    entries: Vec<PinEntry>,
    toks: Vec<Vec<u8>>,
    tok: Vec<u8>,
    malformed: usize,
}

impl Reader {
    spec fn state(&self) -> ParseState {
        ParseState {
            entries: entries_view(self.entries@),
            toks: bytes_views(self.toks@),
            tok: self.tok@,
            malformed: self.malformed as nat,
        }
    }

    fn new() -> (r: Reader)
        ensures
            r.state() == start_state(seq![], 0),
    {
        let r = Reader { entries: Vec::new(), toks: Vec::new(), tok: Vec::new(), malformed: 0 };
        assert(r.state().entries =~= Seq::<PinEntryV>::empty());
        assert(r.state().toks =~= Seq::<Seq<u8>>::empty());
        assert(r.state().tok =~= Seq::<u8>::empty());
        r
    }

    fn end_token(&mut self)
        ensures
            final(self).state() == end_token(old(self).state()),
            pending_weight(final(self).state()) == pending_weight(old(self).state()),
    {
        if self.tok.len() > 0 {
            let ghost before = self.toks@;
            let mut t: Vec<u8> = Vec::new();
            std::mem::swap(&mut t, &mut self.tok);
            self.toks.push(t);
            assert(bytes_views(self.toks@) =~= bytes_views(before).push(t@));
            assert(self.tok@ =~= Seq::<u8>::empty());
        }
    }

    fn end_line(&mut self)
        requires
            pending_weight(old(self).state()) <= usize::MAX,
        ensures
            final(self).state() == end_line(old(self).state()),
            pending_weight(final(self).state()) <= pending_weight(old(self).state()),
    {
        let ghost st = self.state();
        if self.toks.len() == 0 {
            assert(st.toks =~= Seq::<Seq<u8>>::empty());
            return;
        }
        assert(st.toks[0] == self.toks@[0]@);
        if self.toks[0].len() > 0 && self.toks[0][0] == 35u8 {
            self.toks = Vec::new();
            assert(self.state().toks =~= Seq::<Seq<u8>>::empty());
            return;
        }
        if self.toks.len() == 1 {
            self.toks = Vec::new();
            self.malformed = self.malformed + 1;
            assert(self.state().toks =~= Seq::<Seq<u8>>::empty());
            return;
        }
        let ghost old_entries = self.entries@;
        let mut versions: Vec<Vec<u8>> = Vec::new();
        std::mem::swap(&mut versions, &mut self.toks);
        let ghost all = versions@;
        let tool = versions.remove(0);
        assert(bytes_views(versions@) =~= st.toks.drop_first());
        let e = PinEntry { tool, versions };
        self.entries.push(e);
        assert(entries_view(self.entries@) =~= entries_view(old_entries).push(e@));
        assert(self.state().toks =~= Seq::<Seq<u8>>::empty());
    }

    fn step(&mut self, c: u8)
        requires
            pending_weight(old(self).state()) < usize::MAX,
        ensures
            final(self).state() == step(old(self).state(), c),
            pending_weight(final(self).state()) <= pending_weight(old(self).state()) + 1,
    {
        if c == 10u8 {
            self.end_token();
            self.end_line();
        } else if c == 32u8 || c == 9u8 || c == 13u8 {
            self.end_token();
        } else {
            self.tok.push(c);
        }
    }
}

/// Reads a pin file. Blank lines and lines whose first token starts with `#`
/// are ignored; a line that names a tool without any version is skipped and
/// counted as malformed; every other line is an entry. Tokens are separated
/// by spaces, tabs or carriage returns.
pub fn parse_pin_file(text: &[u8]) -> (r: ParsedPins)
    ensures
        (entries_view(r.entries@), r.malformed as nat) == parse_spec(text@),
{
    let mut rd = Reader::new();
    let mut i: usize = 0;
    while i < text.len()
        invariant
            0 <= i <= text@.len(),
            rd.state() == feed(start_state(seq![], 0), text@.subrange(0, i as int)),
            pending_weight(rd.state()) <= i,
        decreases text@.len() - i,
    {
        assert(text@.subrange(0, i + 1).drop_last() =~= text@.subrange(0, i as int));
        rd.step(text[i]);
        i = i + 1;
    }
    assert(text@.subrange(0, i as int) =~= text@);
    rd.end_token();
    rd.end_line();
    ParsedPins { entries: rd.entries, malformed: rd.malformed }
}

/// Writes entries as a pin file: one line each, the tool and then every
/// version, separated by single spaces.
pub fn serialize_pin_file(entries: &Vec<PinEntry>) -> (r: Vec<u8>)
    ensures
        r@ == serialize_spec(entries_view(entries@)),
{
    let mut out: Vec<u8> = Vec::new();
    let mut i: usize = 0;
    while i < entries.len()
        invariant
            0 <= i <= entries@.len(),
            out@ == serialize_spec(entries_view(entries@.subrange(0, i as int))),
        decreases entries@.len() - i,
    {
        let e = &entries[i];
        let ghost base = out@;
        let ghost ts = seq![e.tool@] + bytes_views(e.versions@);
        append_bytes(&mut out, &e.tool);
        assert(seq![e.tool@].subrange(0, 1) =~= seq![e.tool@]);
        assert(out@ =~= base + join_tokens(seq![e.tool@]));
        let mut j: usize = 0;
        while j < e.versions.len()
            invariant
                0 <= j <= e.versions@.len(),
                ts == seq![e.tool@] + bytes_views(e.versions@),
                out@ == base + join_tokens(ts.subrange(0, j + 1)),
            decreases e.versions@.len() - j,
        {
            out.push(32u8);
            append_bytes(&mut out, &e.versions[j]);
            assert(ts.subrange(0, j + 2).drop_last() =~= ts.subrange(0, j + 1));
            assert(ts[j + 1] == e.versions@[j as int]@);
            assert(out@ =~= base + join_tokens(ts.subrange(0, j + 2)));
            j = j + 1;
        }
        out.push(10u8);
        assert(ts.subrange(0, j + 1) =~= ts);
        assert(entries_view(entries@.subrange(0, i + 1)).drop_last() =~= entries_view(
            entries@.subrange(0, i as int),
        ));
        assert(out@ =~= serialize_spec(entries_view(entries@.subrange(0, i + 1))));
        i = i + 1;
    }
    assert(entries@.subrange(0, i as int) =~= entries@);
    out
}

} // verus!
