use vstd::prelude::*;

verus! {

/// The byte that closes a session record; it is never a sample value.
pub const END_OF_SESSION: u8 = 0xff;

/// A session as the log holds it: when it began, and its samples in order.
pub ghost struct SessionRec {
    pub start_at: u64,
    pub temperatures: Seq<u8>,
}

/// One recording interval: its start time in seconds since the epoch and
/// the samples taken during it, oldest first.
pub struct Session {
    pub start_at: u64,
    pub temperatures: Vec<u8>,
}

impl View for Session {
    type V = SessionRec;

    open spec fn view(&self) -> SessionRec {
        SessionRec { start_at: self.start_at, temperatures: self.temperatures@ }
    }
}

/// The models of a list of sessions.
pub open spec fn sessions_view(v: Seq<Session>) -> Seq<SessionRec> {
    v.map_values(|s: Session| s@)
}

/// The eight big-endian bytes of a session header.
pub open spec fn header_bytes(x: u64) -> Seq<u8> {
    seq![
        (x >> 56u64) as u8,
        (x >> 48u64) as u8,
        (x >> 40u64) as u8,
        (x >> 32u64) as u8,
        (x >> 24u64) as u8,
        (x >> 16u64) as u8,
        (x >> 8u64) as u8,
        x as u8,
    ]
}

/// The value of eight big-endian bytes.
pub open spec fn header_value(b: Seq<u8>) -> u64 {
    ((b[0] as u64) << 56u64) | ((b[1] as u64) << 48u64) | ((b[2] as u64) << 40u64) | ((
    b[3] as u64) << 32u64) | ((b[4] as u64) << 24u64) | ((b[5] as u64) << 16u64) | ((
    b[6] as u64) << 8u64) | (b[7] as u64)
}

/// Splits the bytes that follow a header into the samples of the record and
/// the bytes after it: the samples run up to the first terminator (which is
/// dropped) or to the end.
pub open spec fn split_samples(s: Seq<u8>) -> (Seq<u8>, Seq<u8>)
    decreases s.len(),
{
    if s.len() == 0 {
        (seq![], seq![])
    } else if s[0] == END_OF_SESSION {
        (seq![], s.drop_first())
    } else {
        let (t, rest) = split_samples(s.drop_first());
        (seq![s[0]] + t, rest)
    }
}

pub proof fn lemma_split_rest_shorter(s: Seq<u8>)
    ensures
        split_samples(s).1.len() <= s.len(),
    decreases s.len(),
{
    if s.len() > 0 && s[0] != END_OF_SESSION {
        lemma_split_rest_shorter(s.drop_first());
    }
}

/// The sessions that a scan of the log finds, oldest first. A scan stops
/// where fewer than eight bytes are left for a header.
pub open spec fn parse(b: Seq<u8>) -> Seq<SessionRec>
    decreases b.len(),
{
    if b.len() < 8 {
        seq![]
    } else {
        let (t, rest) = split_samples(b.subrange(8, b.len() as int));
        proof {
            lemma_split_rest_shorter(b.subrange(8, b.len() as int));
        }
        seq![SessionRec { start_at: header_value(b.subrange(0, 8)), temperatures: t }]
            + parse(rest)
    }
}

/// The bytes of one record without its terminator.
pub open spec fn encode_rec(r: SessionRec) -> Seq<u8> {
    header_bytes(r.start_at) + r.temperatures
}

/// The log that holds the given sessions, the last one open.
pub open spec fn encode_log(recs: Seq<SessionRec>) -> Seq<u8>
    decreases recs.len(),
{
    if recs.len() == 0 {
        seq![]
    } else if recs.len() == 1 {
        encode_rec(recs[0])
    } else {
        encode_log(recs.drop_last()).push(END_OF_SESSION) + encode_rec(recs.last())
    }
}

/// The log after a new session begins at `now`: the open record is closed
/// (if there is one) and a fresh header follows.
pub open spec fn begun(b: Seq<u8>, now: u64) -> Seq<u8> {
    if b.len() > 0 {
        b.push(END_OF_SESSION) + header_bytes(now)
    } else {
        header_bytes(now)
    }
}

/// The log that compaction leaves: only the last session, as the open record;
/// a log in which no session is found stays as it is.
pub open spec fn compacted(b: Seq<u8>) -> Seq<u8> {
    if parse(b).len() > 0 {
        encode_rec(parse(b).last())
    } else {
        b
    }
}

/// A header read back gives the time it was written from.
pub proof fn lemma_header_round_trip(x: u64)
    ensures
        header_value(header_bytes(x)) == x,
{
    assert(((((x >> 56u64) as u8) as u64) << 56u64) | ((((x >> 48u64) as u8) as u64) << 48u64)
        | ((((x >> 40u64) as u8) as u64) << 40u64) | ((((x >> 32u64) as u8) as u64) << 32u64)
        | ((((x >> 24u64) as u8) as u64) << 24u64) | ((((x >> 16u64) as u8) as u64) << 16u64)
        | ((((x >> 8u64) as u8) as u64) << 8u64) | ((x as u8) as u64) == x) by (bit_vector);
}

/// Appends the header of a session that begins at `x`.
fn push_header(out: &mut Vec<u8>, x: u64)
    ensures
        final(out)@ == old(out)@ + header_bytes(x),
{
    out.push((x >> 56u64) as u8);
    out.push((x >> 48u64) as u8);
    out.push((x >> 40u64) as u8);
    out.push((x >> 32u64) as u8);
    out.push((x >> 24u64) as u8);
    out.push((x >> 16u64) as u8);
    out.push((x >> 8u64) as u8);
    out.push(x as u8);
    assert(final(out)@ =~= old(out)@ + header_bytes(x));
}

/// Reads the header at `pos`.
fn read_header(b: &Vec<u8>, pos: usize) -> (r: u64)
    requires
        pos + 8 <= b@.len(),
    ensures
        r == header_value(b@.subrange(pos as int, pos + 8)),
{
    let n: usize = b.len();
    assert(pos + 8 <= n);
    ((b[pos] as u64) << 56u64) | ((b[pos + 1] as u64) << 48u64) | ((b[pos + 2] as u64) << 40u64)
        | ((b[pos + 3] as u64) << 32u64) | ((b[pos + 4] as u64) << 24u64) | ((b[pos + 5] as u64)
        << 16u64) | ((b[pos + 6] as u64) << 8u64) | (b[pos + 7] as u64)
}


/// Appends every byte of `src` to `out`.
fn append_all(out: &mut Vec<u8>, src: &Vec<u8>)
    ensures
        final(out)@ == old(out)@ + src@,
{
    let mut i: usize = 0;
    while i < src.len()
        invariant
            i <= src@.len(),
            out@ == old(out)@ + src@.subrange(0, i as int),
        decreases src@.len() - i,
    {
        out.push(src[i]);
        i = i + 1;
        assert(out@ =~= old(out)@ + src@.subrange(0, i as int));
    }
    assert(src@.subrange(0, i as int) =~= src@);
}

/// Reads the samples of the record whose header ends at `start`; returns
/// them with the position where the next record begins.
fn read_samples(b: &Vec<u8>, start: usize) -> (r: (Vec<u8>, usize))
    requires
        start <= b@.len(),
    ensures
        start <= r.1 <= b@.len(),
        split_samples(b@.subrange(start as int, b@.len() as int)) == (
        r.0@,
        b@.subrange(r.1 as int, b@.len() as int),
        ),
{
    let n: usize = b.len();
    let mut temperatures: Vec<u8> = Vec::new();
    let mut j: usize = start;
    while j < n && b[j] != END_OF_SESSION
        invariant
            n == b@.len(),
            start <= j <= n,
            split_samples(b@.subrange(start as int, n as int)) == (
            temperatures@ + split_samples(b@.subrange(j as int, n as int)).0,
            split_samples(b@.subrange(j as int, n as int)).1,
            ),
        decreases n - j,
    {
        let ghost s = b@.subrange(j as int, n as int);
        assert(s.drop_first() =~= b@.subrange(j + 1, n as int));
        let ghost before = temperatures@;
        temperatures.push(b[j]);
        j = j + 1;
        assert(before + split_samples(s).0 =~= temperatures@ + split_samples(
            b@.subrange(j as int, n as int),
        ).0);
    }
    let next: usize = if j < n {
        j + 1
    } else {
        j
    };
    proof {
        let s = b@.subrange(j as int, n as int);
        if j < n {
            assert(s.drop_first() =~= b@.subrange(next as int, n as int));
        } else {
            assert(s =~= b@.subrange(next as int, n as int));
        }
        assert(temperatures@ + seq![] =~= temperatures@);
    }
    (temperatures, next)
}

/// Scans the whole log into its sessions, oldest first.
pub fn scan(b: &Vec<u8>) -> (r: Vec<Session>)
    ensures
        sessions_view(r@) == parse(b@),
{
    let n: usize = b.len();
    let mut out: Vec<Session> = Vec::new();
    let mut pos: usize = 0;
    assert(b@.subrange(0, n as int) =~= b@);
    while n - pos >= 8
        invariant
            n == b@.len(),
            pos <= n,
            sessions_view(out@) + parse(b@.subrange(pos as int, n as int)) == parse(b@),
        decreases n - pos,
    {
        let start_at = read_header(b, pos);
        let (temperatures, next) = read_samples(b, pos + 8);
        proof {
            let c = b@.subrange(pos as int, n as int);
            assert(c.subrange(8, c.len() as int) =~= b@.subrange(pos + 8, n as int));
            assert(c.subrange(0, 8) =~= b@.subrange(pos as int, pos + 8));
        }
        let ghost before = sessions_view(out@);
        let ghost rest = parse(b@.subrange(next as int, n as int));
        let sess = Session { start_at, temperatures };
        out.push(sess);
        assert(sessions_view(out@) =~= before.push(sess@));
        assert(before + (seq![sess@] + rest) =~= before.push(sess@) + rest);
        pos = next;
    }
    assert(parse(b@.subrange(pos as int, n as int)) =~= seq![]);
    assert(sessions_view(out@) + seq![] =~= sessions_view(out@));
    out
}


/// The bytes of the last session, rewritten as the open record.
fn encode_open(sess: &Session) -> (r: Vec<u8>)
    ensures
        r@ == encode_rec(sess@),
{
    let mut out: Vec<u8> = Vec::new();
    push_header(&mut out, sess.start_at);
    append_all(&mut out, &sess.temperatures);
    assert(out@ =~= encode_rec(sess@));
    out
}

/// The session log: a single byte stream of closed records, each followed by
/// the terminator, then at most one open record.
pub struct SessionLog {
    bytes: Vec<u8>,
}

impl View for SessionLog {
    type V = Seq<u8>;

    closed spec fn view(&self) -> Seq<u8> {
        self.bytes@
    }
}

impl SessionLog {
    /// An empty log.
    pub fn new() -> (r: SessionLog)
        ensures
            r@ == Seq::<u8>::empty(),
    {
        SessionLog { bytes: Vec::new() }
    }

    /// A log over bytes read back from storage.
    pub fn from_bytes(bytes: Vec<u8>) -> (r: SessionLog)
        ensures
            r@ == bytes@,
    {
        SessionLog { bytes }
    }

    /// The bytes of the log.
    pub fn as_bytes(&self) -> (r: &Vec<u8>)
        ensures
            r@ == self@,
    {
        &self.bytes
    }

    /// The length of the log in bytes.
    pub fn len(&self) -> (r: usize)
        ensures
            r == self@.len(),
    {
        self.bytes.len()
    }
}

/// Begins a new session at `now`: closes the open record, if the log holds
/// any byte, and appends the new record's header.
pub fn init(log: &mut SessionLog, now: u64)
    ensures
        final(log)@ == begun(old(log)@, now),
{
    if log.bytes.len() > 0 {
        log.bytes.push(END_OF_SESSION);
    }
    push_header(&mut log.bytes, now);
}

/// Appends one sample to the open session. The terminator value must not be
/// passed: a later scan would read it as the end of the session.
pub fn add_temp(log: &mut SessionLog, temp: u8)
    ensures
        final(log)@ == old(log)@.push(temp),
{
    log.bytes.push(temp);
}

/// Scans the log into its sessions, oldest first. With `remove_old`, and
/// when some session was found, the log is then cut down to the last session
/// alone, which stays open.
pub fn sessions(log: &mut SessionLog, remove_old: bool) -> (r: Vec<Session>)
    ensures
        sessions_view(r@) == parse(old(log)@),
        final(log)@ == (if remove_old {
            compacted(old(log)@)
        } else {
            old(log)@
        }),
{
    let found = scan(&log.bytes);
    if remove_old && found.len() > 0 {
        let last = encode_open(&found[found.len() - 1]);
        proof {
            assert(parse(log@).len() == found@.len());
            assert(parse(log@).last() == found@[found@.len() - 1]@);
        }
        log.bytes = last;
    }
    found
}

} // verus!
