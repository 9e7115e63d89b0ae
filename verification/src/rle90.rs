use vstd::prelude::*;
use crate::error::{after, bytes_of, ErrorKind};

verus! {

/// The byte that introduces a run.
const MARKER: u8 = 0x90;

/// Where a run-length decoder stands: the bytes not read yet, the byte a run
/// would repeat, and how many copies of it are still owed.
pub struct Rle90State {
    pub rest: Seq<u8>,
    pub repeated: u8,
    pub owed: nat,
}

/// The next decoded byte and the state after it; `None` at the end.
///
/// `b 0x90 n` stands for `n` copies of `b` in all, `0x90 0x00` for the byte
/// `0x90`, and a count of 1 for nothing at all.
pub open spec fn rle90_step(s: Rle90State) -> Result<Option<(u8, Rle90State)>, ErrorKind> {
    if s.owed > 0 {
        Ok(Some((s.repeated, Rle90State { owed: (s.owed - 1) as nat, ..s })))
    } else if s.rest.len() == 0 {
        Ok(None)
    } else if s.rest[0] != 0x90u8 {
        Ok(Some((s.rest[0], Rle90State { rest: s.rest.skip(1), repeated: s.rest[0], owed: 0 })))
    } else if s.rest.len() == 1 || s.rest[1] == 1 {
        Err(ErrorKind::InvalidData)
    } else if s.rest[1] == 0 {
        Ok(Some((0x90u8, Rle90State { rest: s.rest.skip(2), repeated: 0x90u8, owed: 0 })))
    } else {
        Ok(Some((s.repeated, Rle90State { rest: s.rest.skip(2), repeated: s.repeated, owed: (s.rest[1] - 2) as nat })))
    }
}

/// The state after a step that yields no byte: at the end nothing changes, and what is
/// not understood is passed over.
pub open spec fn rle90_stopped(s: Rle90State) -> Rle90State {
    if s.owed > 0 || s.rest.len() == 0 || s.rest[0] != 0x90u8 {
        s
    } else if s.rest.len() == 1 {
        Rle90State { rest: s.rest.skip(1), ..s }
    } else {
        Rle90State { rest: s.rest.skip(2), ..s }
    }
}

/// The first bytes that are decoded from `s`, at most `n`, up to the end or to what is
/// not understood, and the state after them.
pub open spec fn rle90_upto(s: Rle90State, n: nat) -> (Seq<u8>, Rle90State)
    decreases n,
{
    if n == 0 {
        (seq![], s)
    } else {
        match rle90_step(s) {
            Ok(Some((b, t))) => {
                let (v, u) = rle90_upto(t, (n - 1) as nat);
                (seq![b] + v, u)
            },
            _ => (seq![], rle90_stopped(s)),
        }
    }
}

/// The same without a bound.
pub open spec fn rle90_whole(s: Rle90State) -> (Seq<u8>, Rle90State)
    decreases s.rest.len(), s.owed,
{
    match rle90_step(s) {
        Ok(Some((b, t))) => {
            let (v, u) = rle90_whole(t);
            (seq![b] + v, u)
        },
        _ => (seq![], rle90_stopped(s)),
    }
}

/// Everything that is decoded from `s`.
pub open spec fn rle90_all(s: Rle90State) -> Result<Seq<u8>, ErrorKind>
    decreases s.rest.len(), s.owed,
{
    match rle90_step(s) {
        Err(e) => Err(e),
        Ok(None) => Ok(seq![]),
        Ok(Some((b, t))) => match rle90_all(t) {
            Err(e) => Err(e),
            Ok(v) => Ok(seq![b] + v),
        },
    }
}

/// The first `n` bytes that are decoded from `s`.
pub open spec fn rle90_take(s: Rle90State, n: nat) -> Result<Seq<u8>, ErrorKind>
    decreases n,
{
    if n == 0 {
        Ok(seq![])
    } else {
        match rle90_step(s) {
            Err(e) => Err(e),
            Ok(None) => Err(ErrorKind::UnexpectedEof),
            Ok(Some((b, t))) => match rle90_take(t, (n - 1) as nat) {
                Err(e) => Err(e),
                Ok(v) => Ok(seq![b] + v),
            },
        }
    }
}

/// The state before the first byte of `data`.
pub open spec fn rle90_start(data: Seq<u8>) -> Rle90State {
    Rle90State { rest: data, repeated: 0, owed: 0 }
}

/// Bytes without a marker stand for themselves.
pub proof fn plain_bytes_pass_through(s: Rle90State)
    requires
        s.owed == 0,
        forall|i: int| 0 <= i < s.rest.len() ==> #[trigger] s.rest[i] != 0x90u8,
    ensures
        rle90_all(s) == Ok::<Seq<u8>, ErrorKind>(s.rest),
    decreases s.rest.len(),
{
    if s.rest.len() > 0 {
        let t = Rle90State { rest: s.rest.skip(1), repeated: s.rest[0], owed: 0 };
        plain_bytes_pass_through(t);
        assert(seq![s.rest[0]] + s.rest.skip(1) =~= s.rest);
    } else {
        assert(s.rest =~= seq![]);
    }
}

/// Owed copies come before anything else.
pub proof fn owed_copies_come_first(s: Rle90State)
    ensures
        rle90_all(s) == after(Seq::new(s.owed, |i: int| s.repeated), rle90_all(Rle90State { owed: 0, ..s })),
    decreases s.owed,
{
    let zero = Rle90State { owed: 0, ..s };
    if s.owed == 0 {
        assert(s == zero);
        match rle90_all(zero) {
            Ok(v) => {
                assert(Seq::new(0, |i: int| s.repeated) + v =~= v);
            },
            Err(e) => {},
        }
    } else {
        let t = Rle90State { owed: (s.owed - 1) as nat, ..s };
        owed_copies_come_first(t);
        assert(Rle90State { owed: 0, ..t } == zero);
        match rle90_all(zero) {
            Ok(v) => {
                assert(seq![s.repeated] + (Seq::new(t.owed, |i: int| s.repeated) + v) =~= Seq::new(
                    s.owed,
                    |i: int| s.repeated,
                ) + v);
            },
            Err(e) => {},
        }
    }
}

/// A byte and how often it comes.
pub struct Run {
    pub byte: u8,
    pub count: u8,
}

/// The bytes that runs stand for.
pub open spec fn spread(rs: Seq<Run>) -> Seq<u8>
    decreases rs.len(),
{
    if rs.len() == 0 {
        seq![]
    } else {
        Seq::new(rs[0].count as nat, |i: int| rs[0].byte) + spread(rs.drop_first())
    }
}

/// How a run is written: the byte, or the marker and a 0 if it is the marker, and for
/// more than one copy the marker and the count.
pub open spec fn run_written(r: Run) -> Seq<u8> {
    let head = if r.byte == 0x90 {
        seq![0x90u8, 0]
    } else {
        seq![r.byte]
    };
    if r.count > 1 {
        head + seq![0x90u8, r.count]
    } else {
        head
    }
}

pub open spec fn runs_written(rs: Seq<Run>) -> Seq<u8>
    decreases rs.len(),
{
    if rs.len() == 0 {
        seq![]
    } else {
        run_written(rs[0]) + runs_written(rs.drop_first())
    }
}

/// A written run stands for its copies, whatever comes before and behind.
pub proof fn run_is_repeated(r: Run, repeated: u8, rest: Seq<u8>)
    requires
        r.count >= 1,
    ensures
        rle90_all(Rle90State { rest: run_written(r) + rest, repeated, owed: 0 }) == after(
            Seq::new(r.count as nat, |i: int| r.byte),
            rle90_all(Rle90State { rest, repeated: r.byte, owed: 0 }),
        ),
{
    let b = r.byte;
    let n = r.count;
    let s = Rle90State { rest: run_written(r) + rest, repeated, owed: 0 };
    let end = Rle90State { rest, repeated: b, owed: 0 };
    let behind = if n > 1 {
        seq![0x90u8, n] + rest
    } else {
        rest
    };
    let t = Rle90State { rest: behind, repeated: b, owed: 0 };
    if b == 0x90 {
        assert(s.rest.skip(2) =~= behind);
    } else {
        assert(s.rest.skip(1) =~= behind);
    }
    assert(rle90_step(s) == Ok::<Option<(u8, Rle90State)>, ErrorKind>(Some((b, t))));
    assert(rle90_all(s) == after(seq![b], rle90_all(t)));
    if n > 1 {
        let u = Rle90State { rest, repeated: b, owed: (n - 2) as nat };
        assert(t.rest.skip(2) =~= rest);
        assert(rle90_step(t) == Ok::<Option<(u8, Rle90State)>, ErrorKind>(Some((b, u))));
        assert(rle90_all(t) == after(seq![b], rle90_all(u)));
        owed_copies_come_first(u);
        assert(Rle90State { owed: 0, ..u } == end);
        assert(Seq::new(u.owed, |i: int| u.repeated) =~= Seq::new(u.owed, |i: int| b));
        match rle90_all(end) {
            Ok(v) => {
                assert(seq![b] + (seq![b] + (Seq::new(u.owed, |i: int| b) + v)) =~= Seq::new(n as nat, |i: int| b) + v);
            },
            Err(e) => {},
        }
    } else {
        match rle90_all(end) {
            Ok(v) => {
                assert(seq![b] + v =~= Seq::new(n as nat, |i: int| b) + v);
            },
            Err(e) => {},
        }
    }
}

proof fn runs_are_read(rs: Seq<Run>, repeated: u8)
    requires
        forall|i: int| 0 <= i < rs.len() ==> (#[trigger] rs[i]).count >= 1,
    ensures
        rle90_all(Rle90State { rest: runs_written(rs), repeated, owed: 0 }) == Ok::<Seq<u8>, ErrorKind>(spread(rs)),
    decreases rs.len(),
{
    if rs.len() > 0 {
        let r = rs[0];
        let rest = rs.drop_first();
        assert(r.count >= 1);
        run_is_repeated(r, repeated, runs_written(rest));
        assert forall|i: int| 0 <= i < rest.len() implies (#[trigger] rest[i]).count >= 1 by {
            assert(rest[i] == rs[i + 1]);
        }
        runs_are_read(rest, r.byte);
    }
}

/// Runs that were written, of whatever bytes, are read back.
pub proof fn written_runs_are_read_back(rs: Seq<Run>)
    requires
        forall|i: int| 0 <= i < rs.len() ==> (#[trigger] rs[i]).count >= 1,
    ensures
        rle90_all(rle90_start(runs_written(rs))) == Ok::<Seq<u8>, ErrorKind>(spread(rs)),
        rle90_take(rle90_start(runs_written(rs)), spread(rs).len()) == Ok::<Seq<u8>, ErrorKind>(spread(rs)),
{
    runs_are_read(rs, 0);
    some_of_all(rle90_start(runs_written(rs)), spread(rs).len());
    assert(spread(rs).subrange(0, spread(rs).len() as int) =~= spread(rs));
}

/// The first bytes of a sound stream are the first of all, and there are no more.
pub proof fn some_of_all(s: Rle90State, n: nat)
    requires
        rle90_all(s) is Ok,
    ensures
        ({
            let all = rle90_all(s)->Ok_0;
            rle90_take(s, n) == (if n <= all.len() {
                Ok::<Seq<u8>, ErrorKind>(all.subrange(0, n as int))
            } else {
                Err::<Seq<u8>, ErrorKind>(ErrorKind::UnexpectedEof)
            })
        }),
    decreases n,
{
    let all = rle90_all(s)->Ok_0;
    if n == 0 {
        assert(all.subrange(0, 0) =~= seq![]);
    } else {
        match rle90_step(s) {
            Ok(Some((b, t))) => {
                let rest = rle90_all(t)->Ok_0;
                some_of_all(t, (n - 1) as nat);
                if n <= all.len() {
                    assert(seq![b] + rest.subrange(0, n - 1) =~= all.subrange(0, n as int));
                }
            },
            _ => {},
        }
    }
}

/// Decodes a run-length stream held in memory.
pub struct Rle90Reader<'a> {
    inner: &'a [u8],
    pos: usize,
    repeated: u8,
    count: usize,
}

impl<'a> Rle90Reader<'a> {
    pub closed spec fn state(&self) -> Rle90State {
        Rle90State { rest: self.inner@.skip(self.pos as int), repeated: self.repeated, owed: self.count as nat }
    }

    pub closed spec fn wf(&self) -> bool {
        self.pos <= self.inner@.len()
    }

    /// Decode the bytes of `inner`.
    pub fn new(inner: &'a [u8]) -> (r: Self)
        ensures
            r.wf(),
            r.state() == rle90_start(inner@),
    {
        assert(inner@.skip(0) =~= inner@);
        Rle90Reader { inner, pos: 0, repeated: 0, count: 0 }
    }

    /// Produce the next decoded byte, or `None` at the end of the stream.
    pub fn produce_byte(&mut self) -> (r: Result<Option<u8>, ErrorKind>)
        requires
            old(self).wf(),
        ensures
            final(self).wf(),
            match r {
                Ok(Some(b)) => rle90_step(old(self).state()) == Ok::<Option<(u8, Rle90State)>, ErrorKind>(
                    Some((b, final(self).state())),
                ),
                Ok(None) => {
                    &&& rle90_step(old(self).state()) == Ok::<Option<(u8, Rle90State)>, ErrorKind>(None)
                    &&& final(self).state() == rle90_stopped(old(self).state())
                },
                Err(e) => {
                    &&& rle90_step(old(self).state()) == Err::<Option<(u8, Rle90State)>, ErrorKind>(e)
                    &&& final(self).state() == rle90_stopped(old(self).state())
                },
            },
    {
        if self.count > 0 {
            self.count = self.count - 1;
            return Ok(Some(self.repeated));
        }
        if self.pos >= self.inner.len() {
            return Ok(None);
        }
        let b: u8 = self.inner[self.pos];
        if b != MARKER {
            proof {
                assert(self.inner@.skip(self.pos as int).skip(1) =~= self.inner@.skip(self.pos + 1));
            }
            self.pos = self.pos + 1;
            self.repeated = b;
            return Ok(Some(b));
        }
        if self.inner.len() - self.pos == 1 {
            assert(self.inner@.skip(self.pos as int).skip(1) =~= self.inner@.skip(self.pos + 1));
            self.pos = self.pos + 1;
            return Err(ErrorKind::InvalidData);
        }
        let count: u8 = self.inner[self.pos + 1];
        proof {
            assert(self.inner@.skip(self.pos as int).skip(2) =~= self.inner@.skip(self.pos + 2));
        }
        if count == 0 {
            self.pos = self.pos + 2;
            self.repeated = MARKER;
            return Ok(Some(MARKER));
        }
        if count == 1 {
            self.pos = self.pos + 2;
            return Err(ErrorKind::InvalidData);
        }
        self.pos = self.pos + 2;
        self.count = count as usize - 2;
        Ok(Some(self.repeated))
    }

    /// Append everything that is left to `out`, or what comes before the first thing that
    /// is not understood.
    pub fn read_to_end(&mut self, out: &mut Vec<u8>) -> (r: Result<(), ErrorKind>)
        requires
            old(self).wf(),
        ensures
            final(self).wf(),
            (final(out)@, final(self).state()) == (
                old(out)@ + rle90_whole(old(self).state()).0,
                rle90_whole(old(self).state()).1,
            ),
            match r {
                Ok(_) => after(old(out)@, rle90_all(old(self).state())) == Ok::<Seq<u8>, ErrorKind>(final(out)@),
                Err(e) => rle90_all(old(self).state()) == Err::<Seq<u8>, ErrorKind>(e),
            },
    {
        let ghost goal = after(old(out)@, rle90_all(old(self).state()));
        let ghost whole = rle90_whole(old(self).state());
        loop
            invariant
                self.wf(),
                goal == after(out@, rle90_all(self.state())),
                goal == after(old(out)@, rle90_all(old(self).state())),
                whole == rle90_whole(old(self).state()),
                old(out)@ + whole.0 == out@ + rle90_whole(self.state()).0,
                whole.1 == rle90_whole(self.state()).1,
            decreases self.state().rest.len(), self.state().owed,
        {
            let ghost out0 = out@;
            match self.produce_byte() {
                Ok(Some(b)) => {
                    out.push(b);
                    proof {
                        let v = rle90_whole(self.state()).0;
                        assert(out0 + (seq![b] + v) =~= out@ + v);
                        match rle90_all(self.state()) {
                            Ok(v) => {
                                assert(out0 + (seq![b] + v) =~= out@ + v);
                            },
                            Err(e) => {},
                        }
                    }
                },
                Ok(None) => {
                    assert(out@ + seq![] =~= out@);
                    return Ok(());
                },
                Err(e) => {
                    assert(out@ + seq![] =~= out@);
                    return Err(e);
                },
            }
        }
    }

    /// The next `size` bytes.
    pub fn read_exact(&mut self, size: usize) -> (r: Result<Vec<u8>, ErrorKind>)
        requires
            old(self).wf(),
        ensures
            final(self).wf(),
            final(self).state() == rle90_upto(old(self).state(), size as nat).1,
            bytes_of(r) == rle90_take(old(self).state(), size as nat),
    {
        let mut out: Vec<u8> = Vec::new();
        let ghost goal = rle90_take(old(self).state(), size as nat);
        let mut left: usize = size;
        proof {
            match goal {
                Ok(v) => {
                    assert(out@ + v =~= v);
                },
                Err(e) => {},
            }
        }
        while left > 0
            invariant
                self.wf(),
                goal == after(out@, rle90_take(self.state(), left as nat)),
                goal == rle90_take(old(self).state(), size as nat),
                rle90_upto(self.state(), left as nat).1 == rle90_upto(old(self).state(), size as nat).1,
            decreases left,
        {
            let ghost out0 = out@;
            match self.produce_byte() {
                Ok(Some(b)) => {
                    out.push(b);
                    left = left - 1;
                    proof {
                        match rle90_take(self.state(), left as nat) {
                            Ok(v) => {
                                assert(out0 + (seq![b] + v) =~= out@ + v);
                            },
                            Err(e) => {},
                        }
                    }
                },
                Ok(None) => {
                    return Err(ErrorKind::UnexpectedEof);
                },
                Err(e) => {
                    return Err(e);
                },
            }
        }
        assert(out@ + seq![] =~= out@);
        Ok(out)
    }
}

} // verus!
