use vstd::prelude::*;

use crate::chat::{opt_texts, ChatCompletionChunk};

verus! {

/// The byte that ends a line of the event stream.
pub const LF: u8 = 10;

/// Whether a record delimiter (two line feeds) stands at `i`.
pub open spec fn is_delim(s: Seq<u8>, i: int) -> bool {
    0 <= i && i + 1 < s.len() && s[i] == LF && s[i + 1] == LF
}

/// The first record delimiter at or after `i`.
pub open spec fn find_delim(s: Seq<u8>, i: int) -> Option<int>
    decreases s.len() - i,
{
    if i < 0 || i + 1 >= s.len() {
        None
    } else if s[i] == LF && s[i + 1] == LF {
        Some(i)
    } else {
        find_delim(s, i + 1)
    }
}

/// Splits bytes into the complete records they hold, in order, and the
/// unterminated bytes after the last delimiter.
pub open spec fn frames(s: Seq<u8>) -> (Seq<Seq<u8>>, Seq<u8>)
    decreases s.len(),
{
    match find_delim(s, 0) {
        Some(i) => if 0 <= i && i + 2 <= s.len() {
            let rest = frames(s.subrange(i + 2, s.len() as int));
            (seq![s.subrange(0, i)] + rest.0, rest.1)
        } else {
            (seq![], s)
        },
        None => (seq![], s),
    }
}

proof fn lemma_find_delim(s: Seq<u8>, i: int)
    requires
        0 <= i,
    ensures
        match find_delim(s, i) {
            Some(j) => i <= j && is_delim(s, j) && forall|k: int| i <= k < j ==> !is_delim(s, k),
            None => forall|k: int| i <= k ==> !is_delim(s, k),
        },
    decreases s.len() - i,
{
    if i + 1 < s.len() && !(s[i] == LF && s[i + 1] == LF) {
        lemma_find_delim(s, i + 1);
    }
}

/// A delimiter found in `a` is found at the same place in `a + b`.
proof fn lemma_find_delim_append(a: Seq<u8>, b: Seq<u8>, i: int)
    requires
        0 <= i,
        find_delim(a, i) is Some,
    ensures
        find_delim(a + b, i) == find_delim(a, i),
    decreases a.len() - i,
{
    if !(a[i] == LF && a[i + 1] == LF) {
        lemma_find_delim_append(a, b, i + 1);
    }
}

/// Framing `a + b` frames `a`, then frames what `a` left over together with `b`.
pub proof fn lemma_frames_append(a: Seq<u8>, b: Seq<u8>)
    ensures
        frames(a + b).0 == frames(a).0 + frames(frames(a).1 + b).0,
        frames(a + b).1 == frames(frames(a).1 + b).1,
    decreases a.len(),
{
    lemma_find_delim(a, 0);
    match find_delim(a, 0) {
        Some(i) => {
            lemma_find_delim_append(a, b, 0);
            let a2 = a.subrange(i + 2, a.len() as int);
            lemma_frames_append(a2, b);
            assert((a + b).subrange(i + 2, (a + b).len() as int) =~= a2 + b);
            assert((a + b).subrange(0, i) =~= a.subrange(0, i));
            assert(frames(a).0 =~= seq![a.subrange(0, i)] + frames(a2).0);
            assert(frames(a + b).0 =~= seq![a.subrange(0, i)] + frames(a2 + b).0);
            assert(frames(a + b).0 =~= frames(a).0 + frames(frames(a).1 + b).0);
        },
        None => {
            assert(frames(a).0 =~= seq![]);
            assert(frames(a).0 + frames(frames(a).1 + b).0 =~= frames(a + b).0);
        },
    }
}

/// The bytes `s[lo..hi]`, copied.
fn copy_range(s: &Vec<u8>, lo: usize, hi: usize) -> (r: Vec<u8>)
    requires
        lo <= hi <= s.len(),
    ensures
        r@ == s@.subrange(lo as int, hi as int),
{
    let mut r: Vec<u8> = Vec::new();
    let mut j: usize = lo;
    while j < hi
        invariant
            lo <= j <= hi <= s.len(),
            r@ == s@.subrange(lo as int, j as int),
        decreases hi - j,
    {
        r.push(s[j]);
        j += 1;
        assert(r@ =~= s@.subrange(lo as int, j as int));
    }
    r
}

/// The position of the first record delimiter in `s`.
fn first_delim(s: &Vec<u8>) -> (r: Option<usize>)
    ensures
        r matches Some(i) ==> find_delim(s@, 0) == Some(i as int),
        r is None ==> find_delim(s@, 0) is None,
{
    let mut i: usize = 0;
    while i < s.len() && i + 1 < s.len()
        invariant
            i <= s.len(),
            find_delim(s@, 0) == find_delim(s@, i as int),
        decreases s.len() - i,
    {
        if s[i] == LF && s[i + 1] == LF {
            return Some(i);
        }
        i += 1;
    }
    None
}

/// The field name that opens a payload line: `data:`.
pub open spec fn data_field() -> Seq<u8> {
    seq![100u8, 97u8, 116u8, 97u8, 58u8]
}

/// The payload that ends a stream: `[DONE]`.
pub open spec fn done_marker() -> Seq<u8> {
    seq![91u8, 68u8, 79u8, 78u8, 69u8, 93u8]
}

/// The end of the line that starts at `i`: the next line feed, or the end of `s`.
pub open spec fn line_end(s: Seq<u8>, i: int) -> int
    decreases s.len() - i,
{
    if i < 0 || i >= s.len() {
        s.len() as int
    } else if s[i] == LF {
        i
    } else {
        line_end(s, i + 1)
    }
}

/// `v` without one leading space, if it has one.
pub open spec fn strip_space(v: Seq<u8>) -> Seq<u8> {
    if v.len() > 0 && v[0] == 32 {
        v.subrange(1, v.len() as int)
    } else {
        v
    }
}

/// The value of the first `data:` line of a record at or after the line start `i`.
pub open spec fn payload_from(s: Seq<u8>, i: int) -> Option<Seq<u8>>
    decreases s.len() - i,
{
    if i < 0 || i >= s.len() {
        None
    } else {
        let e = line_end(s, i);
        if i + 5 <= e && s.subrange(i, i + 5) == data_field() {
            Some(strip_space(s.subrange(i + 5, e)))
        } else if i <= e && e < s.len() {
            payload_from(s, e + 1)
        } else {
            None
        }
    }
}

/// The payload of a record: the value of its first `data:` line. Lines of other
/// fields, such as the event name, are passed over.
pub open spec fn record_payload(rec: Seq<u8>) -> Option<Seq<u8>> {
    payload_from(rec, 0)
}

proof fn lemma_line_end(s: Seq<u8>, i: int)
    requires
        0 <= i <= s.len(),
    ensures
        i <= line_end(s, i) <= s.len(),
    decreases s.len() - i,
{
    if i < s.len() && s[i] != LF {
        lemma_line_end(s, i + 1);
    }
}

/// The end of the line that starts at `i`.
fn line_end_at(s: &Vec<u8>, i: usize) -> (e: usize)
    requires
        i <= s.len(),
    ensures
        e as int == line_end(s@, i as int),
        i <= e <= s.len(),
{
    let mut j: usize = i;
    proof {
        lemma_line_end(s@, i as int);
    }
    while j < s.len() && s[j] != LF
        invariant
            i <= j <= s.len(),
            line_end(s@, i as int) == line_end(s@, j as int),
        decreases s.len() - j,
    {
        j += 1;
    }
    j
}

/// The payload of a record: the value of its first `data:` line.
pub fn payload_of(rec: &Vec<u8>) -> (r: Option<Vec<u8>>)
    ensures
        r matches Some(p) ==> record_payload(rec@) == Some(p@),
        r is None ==> record_payload(rec@) is None,
{
    let mut i: usize = 0;
    while i < rec.len()
        invariant
            i <= rec.len(),
            record_payload(rec@) == payload_from(rec@, i as int),
        decreases rec.len() - i,
    {
        let e = line_end_at(rec, i);
        if e - i >= 5 && rec[i] == 100 && rec[i + 1] == 97 && rec[i + 2] == 116 && rec[i + 3]
            == 97 && rec[i + 4] == 58 {
            assert(rec@.subrange(i as int, i + 5) =~= data_field());
            let start: usize = if e > i + 5 && rec[i + 5] == 32 {
                i + 6
            } else {
                i + 5
            };
            let p = copy_range(rec, start, e);
            assert(p@ =~= strip_space(rec@.subrange(i + 5, e as int)));
            return Some(p);
        }
        assert(!(i + 5 <= e && rec@.subrange(i as int, i + 5) == data_field())) by {
            if i + 5 <= e && rec@.subrange(i as int, i + 5) == data_field() {
                assert(rec@.subrange(i as int, i + 5)[0] == 100u8);
                assert(rec@.subrange(i as int, i + 5)[1] == 97u8);
                assert(rec@.subrange(i as int, i + 5)[2] == 116u8);
                assert(rec@.subrange(i as int, i + 5)[3] == 97u8);
                assert(rec@.subrange(i as int, i + 5)[4] == 58u8);
            }
        }
        if e >= rec.len() {
            return None;
        }
        i = e + 1;
    }
    None
}

/// Whether a payload is the end-of-stream marker.
pub fn is_done_marker(p: &Vec<u8>) -> (r: bool)
    ensures
        r == (p@ == done_marker()),
{
    let r = p.len() == 6 && p[0] == 91 && p[1] == 68 && p[2] == 79 && p[3] == 78 && p[4] == 69
        && p[5] == 93;
    proof {
        if r {
            assert(p@ =~= done_marker());
        } else if p@ == done_marker() {
            assert(p@[0] == 91u8 && p@[1] == 68u8 && p@[2] == 79u8);
            assert(p@[3] == 78u8 && p@[4] == 69u8 && p@[5] == 93u8);
        }
    }
    r
}

/// The content fragments of the choices of a chunk payload, in order, as the
/// JSON decoder reads them; `None` where the payload is no well-formed chunk.
pub uninterp spec fn chunk_of_json(payload: Seq<u8>) -> Option<Seq<Option<Seq<char>>>>;

/// Relies on serde_json::from_slice to parse the payload as one JSON value,
/// and on Value::get, Value::as_array, Value::pointer and Value::as_str to read
/// its `choices` array and the `delta.content` string of each choice. The
/// result depends on the bytes alone.
#[verifier::external_body]
fn decode_chunk_json(payload: &[u8]) -> (r: Option<Vec<Option<String>>>)
    ensures
        r matches Some(v) ==> chunk_of_json(payload@) == Some(opt_texts(v@)),
        r is None ==> chunk_of_json(payload@) is None,
{
    let value: serde_json::Value = serde_json::from_slice(payload).ok()?;
    let choices = value.get("choices")?.as_array()?;
    Some(
        choices.iter().map(
            |c| c.pointer("/delta/content").and_then(|t| t.as_str()).map(|t| t.to_owned()),
        ).collect(),
    )
}

/// Decodes a chunk payload; `None` where it is no well-formed chunk.
pub fn decode_chunk(payload: &Vec<u8>) -> (r: Option<ChatCompletionChunk>)
    ensures
        r matches Some(c) ==> chunk_of_json(payload@) == Some(c@),
        r is None ==> chunk_of_json(payload@) is None,
{
    match decode_chunk_json(payload.as_slice()) {
        Some(contents) => Some(ChatCompletionChunk::from_contents(contents)),
        None => None,
    }
}

/// Where a stream stands: still reading, ended by its marker, or ended by a
/// malformed record.
#[derive(Clone, Copy, PartialEq, Eq, Structural)]
pub enum Phase {
    Open,
    Done,
    Failed,
}

/// What one complete record does to the stream.
pub enum Effect {
    /// It has no payload and yields nothing.
    Skip,
    /// It carries the end-of-stream marker.
    Finish,
    /// It carries a chunk with these content fragments.
    Chunk(Seq<Option<Seq<char>>>),
    /// Its payload is no well-formed chunk.
    Malformed,
}

pub open spec fn record_effect(rec: Seq<u8>) -> Effect {
    match record_payload(rec) {
        None => Effect::Skip,
        Some(p) => if p == done_marker() {
            Effect::Finish
        } else {
            match chunk_of_json(p) {
                Some(c) => Effect::Chunk(c),
                None => Effect::Malformed,
            }
        },
    }
}

/// The state a stream reaches from an open one by the records `recs`,
/// followed by the unterminated bytes `rem`: what stays buffered, the phase,
/// and the chunks yielded, in order. Processing stops at the first record
/// that ends the stream; a stream that has ended buffers nothing.
pub open spec fn settle(recs: Seq<Seq<u8>>, rem: Seq<u8>) -> (Seq<u8>, Phase, Seq<Seq<Option<Seq<char>>>>)
    decreases recs.len(),
{
    if recs.len() == 0 {
        (rem, Phase::Open, seq![])
    } else {
        match record_effect(recs[0]) {
            Effect::Skip => settle(recs.drop_first(), rem),
            Effect::Finish => (seq![], Phase::Done, seq![]),
            Effect::Malformed => (seq![], Phase::Failed, seq![]),
            Effect::Chunk(c) => {
                let r = settle(recs.drop_first(), rem);
                (r.0, r.1, seq![c] + r.2)
            },
        }
    }
}

/// The state a stream reaches once it has received the bytes `s`, in any
/// chunks, and its consumer has taken every chunk it could.
pub open spec fn outcome(s: Seq<u8>) -> (Seq<u8>, Phase, Seq<Seq<Option<Seq<char>>>>) {
    settle(frames(s).0, frames(s).1)
}

/// What one request for the next element gives, in the model.
pub enum Step {
    Yield(Seq<Option<Seq<char>>>),
    Wait,
    Finish,
    Fail,
}

/// One request for the next element, from the buffer `buf` in phase `phase`:
/// the new buffer, the new phase, and what the consumer is given.
pub open spec fn next_step(buf: Seq<u8>, phase: Phase) -> (Seq<u8>, Phase, Step)
    decreases buf.len(),
{
    if phase != Phase::Open {
        (buf, phase, Step::Finish)
    } else {
        match find_delim(buf, 0) {
            Some(i) => if 0 <= i && i + 2 <= buf.len() {
                let rest = buf.subrange(i + 2, buf.len() as int);
                match record_effect(buf.subrange(0, i)) {
                    Effect::Skip => next_step(rest, Phase::Open),
                    Effect::Finish => (seq![], Phase::Done, Step::Finish),
                    Effect::Malformed => (seq![], Phase::Failed, Step::Fail),
                    Effect::Chunk(c) => (rest, Phase::Open, Step::Yield(c)),
                }
            } else {
                (buf, phase, Step::Wait)
            },
            None => (buf, phase, Step::Wait),
        }
    }
}

/// Bytes received in phase `phase`: buffered while the stream is open,
/// ignored once it has ended.
pub open spec fn push_bytes(buf: Seq<u8>, phase: Phase, bytes: Seq<u8>) -> Seq<u8> {
    if phase == Phase::Open {
        buf + bytes
    } else {
        buf
    }
}

/// Requests for the next element, repeated while they yield chunks.
pub open spec fn drain(buf: Seq<u8>, phase: Phase) -> (Seq<u8>, Phase, Seq<Seq<Option<Seq<char>>>>)
    decreases buf.len(),
{
    let st = next_step(buf, phase);
    match st.2 {
        Step::Yield(c) => if st.0.len() < buf.len() {
            let r = drain(st.0, st.1);
            (r.0, r.1, seq![c] + r.2)
        } else {
            (st.0, st.1, seq![c])
        },
        _ => (st.0, st.1, seq![]),
    }
}

/// A decoder fed the transport chunks `chunks` one by one, drained after each:
/// what stays buffered, the phase, and every chunk yielded, in order.
pub open spec fn session(chunks: Seq<Seq<u8>>) -> (Seq<u8>, Phase, Seq<Seq<Option<Seq<char>>>>)
    decreases chunks.len(),
{
    if chunks.len() == 0 {
        (seq![], Phase::Open, seq![])
    } else {
        let prev = session(chunks.drop_last());
        let d = drain(push_bytes(prev.0, prev.1, chunks.last()), prev.1);
        (d.0, d.1, prev.2 + d.2)
    }
}

proof fn lemma_next_step_shrinks(buf: Seq<u8>)
    ensures
        next_step(buf, Phase::Open).2 is Yield ==> next_step(buf, Phase::Open).0.len() < buf.len()
            && next_step(buf, Phase::Open).1 == Phase::Open,
    decreases buf.len(),
{
    lemma_find_delim(buf, 0);
    if let Some(i) = find_delim(buf, 0) {
        let rest = buf.subrange(i + 2, buf.len() as int);
        if record_effect(buf.subrange(0, i)) is Skip {
            lemma_next_step_shrinks(rest);
        }
    }
}

/// Draining an open buffer settles the records that framing finds in it.
proof fn lemma_drain_settles(buf: Seq<u8>)
    ensures
        drain(buf, Phase::Open) == settle(frames(buf).0, frames(buf).1),
    decreases buf.len(),
{
    lemma_find_delim(buf, 0);
    lemma_next_step_shrinks(buf);
    match find_delim(buf, 0) {
        Some(i) => {
            let rec = buf.subrange(0, i);
            let rest = buf.subrange(i + 2, buf.len() as int);
            lemma_drain_settles(rest);
            let fr = frames(buf).0;
            assert(fr[0] == rec);
            assert(fr.drop_first() =~= frames(rest).0);
            if record_effect(rec) is Skip {
                lemma_next_step_shrinks(rest);
                assert(drain(buf, Phase::Open) == drain(rest, Phase::Open));
            }
        },
        None => {},
    }
}

/// A stream that is still open after the records `recs` keeps the remainder buffered.
proof fn lemma_settle_open(recs: Seq<Seq<u8>>, rem: Seq<u8>)
    ensures
        settle(recs, rem).1 == Phase::Open ==> settle(recs, rem).0 == rem,
        settle(recs, rem).1 != Phase::Open ==> settle(recs, rem).0 == Seq::<u8>::empty(),
    decreases recs.len(),
{
    if recs.len() > 0 {
        lemma_settle_open(recs.drop_first(), rem);
    }
}

/// Records processed in two runs: the second run counts only if the first left
/// the stream open.
proof fn lemma_settle_append(r1: Seq<Seq<u8>>, rem1: Seq<u8>, r2: Seq<Seq<u8>>, rem2: Seq<u8>)
    ensures
        settle(r1, rem1).1 == Phase::Open ==> settle(r1 + r2, rem2) == (
            settle(r2, rem2).0,
            settle(r2, rem2).1,
            settle(r1, rem1).2 + settle(r2, rem2).2,
        ),
        settle(r1, rem1).1 != Phase::Open ==> settle(r1 + r2, rem2) == settle(r1, rem1),
    decreases r1.len(),
{
    if r1.len() == 0 {
        assert(r1 + r2 =~= r2);
        assert(settle(r1, rem1).2 + settle(r2, rem2).2 =~= settle(r2, rem2).2);
    } else {
        lemma_settle_append(r1.drop_first(), rem1, r2, rem2);
        assert((r1 + r2)[0] == r1[0]);
        assert((r1 + r2).drop_first() =~= r1.drop_first() + r2);
        if let Effect::Chunk(c) = record_effect(r1[0]) {
            let a = settle(r1.drop_first(), rem1);
            let b = settle(r2, rem2);
            assert(seq![c] + (a.2 + b.2) =~= (seq![c] + a.2) + b.2);
        }
    }
}

/// Feeding the transport chunks one by one and draining after each reaches the
/// state that all their bytes together reach.
pub proof fn lemma_session_outcome(chunks: Seq<Seq<u8>>)
    ensures
        session(chunks) == outcome(chunks.flatten()),
    decreases chunks.len(),
{
    if chunks.len() == 0 {
        assert(frames(Seq::<u8>::empty()) == (Seq::<Seq<u8>>::empty(), Seq::<u8>::empty()));
    } else {
        let init = chunks.drop_last();
        let c = chunks.last();
        lemma_session_outcome(init);
        assert(init.push(c) =~= chunks);
        init.lemma_flatten_push(c);
        let f = init.flatten();
        lemma_frames_append(f, c);
        let r1 = frames(f).0;
        let rem1 = frames(f).1;
        let r2 = frames(rem1 + c).0;
        let rem2 = frames(rem1 + c).1;
        lemma_settle_append(r1, rem1, r2, rem2);
        lemma_settle_open(r1, rem1);
        let prev = session(init);
        if prev.1 == Phase::Open {
            lemma_drain_settles(rem1 + c);
        } else {
            let d = drain(prev.0, prev.1);
            assert(prev.2 + d.2 =~= prev.2);
        }
    }
}

/// Framing does not depend on where the transport split the bytes: two
/// chunkings of the same bytes give the same chunks, the same phase and the
/// same buffered remainder.
pub proof fn lemma_chunking_irrelevant(a: Seq<Seq<u8>>, b: Seq<Seq<u8>>)
    requires
        a.flatten() == b.flatten(),
    ensures
        session(a) == session(b),
{
    lemma_session_outcome(a);
    lemma_session_outcome(b);
}

/// What a request for the next element gives.
pub enum StreamEvent {
    /// The next chunk, decoded from the next complete record.
    Chunk(ChatCompletionChunk),
    /// No complete record is buffered: more bytes are needed.
    NeedMore,
    /// The stream has ended, with no further element.
    End,
    /// A record held a malformed payload: the stream ends in error.
    Error(String),
}

/// The model of what an event gives.
pub open spec fn event_step(e: StreamEvent) -> Step {
    match e {
        StreamEvent::Chunk(c) => Step::Yield(c@),
        StreamEvent::NeedMore => Step::Wait,
        StreamEvent::End => Step::Finish,
        StreamEvent::Error(_) => Step::Fail,
    }
}

/// Decodes a stream of chat completion records from transport chunks that may
/// split records anywhere.
///
/// The consumer hands over each chunk with `push` and then asks for elements
/// with `next_event` until it gives `NeedMore`.
pub struct ChunkDecoder {
    buf: Vec<u8>,
    phase: Phase,
}

impl View for ChunkDecoder {
    type V = (Seq<u8>, Phase);

    /// The bytes that are not yet framed, and the phase.
    closed spec fn view(&self) -> (Seq<u8>, Phase) {
        (self.buf@, self.phase)
    }
}

impl ChunkDecoder {
    /// An open decoder with nothing buffered.
    pub fn new() -> (r: ChunkDecoder)
        ensures
            r@ == (Seq::<u8>::empty(), Phase::Open),
    {
        ChunkDecoder { buf: Vec::new(), phase: Phase::Open }
    }

    /// The phase the stream is in.
    pub fn phase(&self) -> (r: Phase)
        ensures
            r == self@.1,
    {
        self.phase
    }

    /// Hands over the next transport chunk. Once the stream has ended, bytes are ignored.
    pub fn push(&mut self, bytes: &[u8])
        ensures
            final(self)@ == (push_bytes(old(self)@.0, old(self)@.1, bytes@), old(self)@.1),
    {
        if self.phase == Phase::Open {
            let mut j: usize = 0;
            let ghost start = self.buf@;
            while j < bytes.len()
                invariant
                    j <= bytes.len(),
                    self.phase == Phase::Open,
                    self.buf@ == start + bytes@.subrange(0, j as int),
                decreases bytes.len() - j,
            {
                self.buf.push(bytes[j]);
                j += 1;
                assert(self.buf@ =~= start + bytes@.subrange(0, j as int));
            }
            assert(bytes@.subrange(0, bytes.len() as int) =~= bytes@);
        }
    }

    /// Takes the next element: the chunk of the next complete record with a
    /// payload, or what stops the stream.
    pub fn next_event(&mut self) -> (e: StreamEvent)
        ensures
            next_step(old(self)@.0, old(self)@.1) == (final(self)@.0, final(self)@.1, event_step(e)),
    {
        if self.phase != Phase::Open {
            return StreamEvent::End;
        }
        loop
            invariant
                self.phase == Phase::Open,
                next_step(old(self)@.0, old(self)@.1) == next_step(self.buf@, Phase::Open),
            decreases self.buf.len(),
        {
            match first_delim(&self.buf) {
                None => {
                    return StreamEvent::NeedMore;
                },
                Some(i) => {
                    proof {
                        lemma_find_delim(self.buf@, 0);
                    }
                    let rec = copy_range(&self.buf, 0, i);
                    let rest = copy_range(&self.buf, i + 2, self.buf.len());
                    match payload_of(&rec) {
                        None => {
                            self.buf = rest;
                        },
                        Some(p) => {
                            if is_done_marker(&p) {
                                self.buf = Vec::new();
                                self.phase = Phase::Done;
                                return StreamEvent::End;
                            }
                            match decode_chunk(&p) {
                                Some(c) => {
                                    self.buf = rest;
                                    return StreamEvent::Chunk(c);
                                },
                                None => {
                                    self.buf = Vec::new();
                                    self.phase = Phase::Failed;
                                    return StreamEvent::Error("malformed chunk payload".to_owned());
                                },
                            }
                        },
                    }
                },
            }
        }
    }
}

/// A stream whose records carry well-formed chunks up to a record with the
/// end-of-stream marker yields exactly those chunks, then ends cleanly: what
/// follows the marker is never read.
pub proof fn lemma_marker_ends_stream(
    before: Seq<Seq<u8>>,
    marker: Seq<u8>,
    after: Seq<Seq<u8>>,
    rem: Seq<u8>,
)
    requires
        forall|k: int| 0 <= k < before.len() ==> record_effect(#[trigger] before[k]) is Chunk,
        record_payload(marker) == Some(done_marker()),
    ensures
        settle(before + seq![marker] + after, rem) == (
            Seq::<u8>::empty(),
            Phase::Done,
            before.map_values(|r: Seq<u8>| record_effect(r)->Chunk_0),
        ),
    decreases before.len(),
{
    let all = before + seq![marker] + after;
    if before.len() == 0 {
        assert(all[0] == marker);
        assert(before.map_values(|r: Seq<u8>| record_effect(r)->Chunk_0) =~= seq![]);
    } else {
        let tail = before.drop_first();
        assert forall|k: int| 0 <= k < tail.len() implies record_effect(#[trigger] tail[k]) is Chunk by {
            assert(tail[k] == before[k + 1]);
        }
        lemma_marker_ends_stream(tail, marker, after, rem);
        assert(all[0] == before[0]);
        assert(all.drop_first() =~= tail + seq![marker] + after);
        assert(before.map_values(|r: Seq<u8>| record_effect(r)->Chunk_0) =~= seq![
            record_effect(before[0])->Chunk_0,
        ] + tail.map_values(|r: Seq<u8>| record_effect(r)->Chunk_0));
    }
}

/// A record with a malformed payload ends the stream in error at that record,
/// after every chunk of the well-formed records before it was yielded.
pub proof fn lemma_malformed_fails_stream(
    before: Seq<Seq<u8>>,
    bad: Seq<u8>,
    after: Seq<Seq<u8>>,
    rem: Seq<u8>,
)
    requires
        forall|k: int| 0 <= k < before.len() ==> record_effect(#[trigger] before[k]) is Chunk,
        record_effect(bad) is Malformed,
    ensures
        settle(before + seq![bad] + after, rem) == (
            Seq::<u8>::empty(),
            Phase::Failed,
            before.map_values(|r: Seq<u8>| record_effect(r)->Chunk_0),
        ),
    decreases before.len(),
{
    let all = before + seq![bad] + after;
    if before.len() == 0 {
        assert(all[0] == bad);
        assert(before.map_values(|r: Seq<u8>| record_effect(r)->Chunk_0) =~= seq![]);
    } else {
        let tail = before.drop_first();
        assert forall|k: int| 0 <= k < tail.len() implies record_effect(#[trigger] tail[k]) is Chunk by {
            assert(tail[k] == before[k + 1]);
        }
        lemma_malformed_fails_stream(tail, bad, after, rem);
        assert(all[0] == before[0]);
        assert(all.drop_first() =~= tail + seq![bad] + after);
        assert(before.map_values(|r: Seq<u8>| record_effect(r)->Chunk_0) =~= seq![
            record_effect(before[0])->Chunk_0,
        ] + tail.map_values(|r: Seq<u8>| record_effect(r)->Chunk_0));
    }
}

} // verus!
