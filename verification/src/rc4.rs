use vstd::prelude::*;

verus! {

pub open spec fn swapped(s: Seq<u8>, i: int, j: int) -> Seq<u8> {
    s.update(i, s[j]).update(j, s[i])
}

/// The identity permutation of the 256 byte values.
pub open spec fn identity() -> Seq<u8> {
    Seq::new(256, |i: int| i as u8)
}

/// Key scheduling from position `i` on.
pub open spec fn scheduled_from(s: Seq<u8>, key: Seq<u8>, i: int, j: u8) -> Seq<u8>
    decreases 256 - i,
{
    if i >= 256 || key.len() == 0 {
        s
    } else {
        let j1 = j.wrapping_add(s[i]).wrapping_add(key[i % (key.len() as int)]);
        scheduled_from(swapped(s, i, j1 as int), key, i + 1, j1)
    }
}

/// The permutation that `key` prepares.
pub open spec fn scheduled(key: Seq<u8>) -> Seq<u8> {
    scheduled_from(identity(), key, 0, 0)
}

/// The first `n` key stream bytes of the cipher in the given state.
pub open spec fn key_stream(s: Seq<u8>, i: u8, j: u8, n: nat) -> Seq<u8>
    decreases n,
{
    if n == 0 {
        seq![]
    } else {
        let i1 = i.wrapping_add(1);
        let j1 = j.wrapping_add(s[i1 as int]);
        let t = swapped(s, i1 as int, j1 as int);
        let k = t[t[i1 as int].wrapping_add(t[j1 as int]) as int];
        seq![k] + key_stream(t, i1, j1, (n - 1) as nat)
    }
}

/// `data` combined with the key stream of `key`.
pub open spec fn rc4(key: Seq<u8>, data: Seq<u8>) -> Seq<u8> {
    let k = key_stream(scheduled(key), 0, 0, data.len());
    Seq::new(data.len(), |i: int| data[i] ^ k[i])
}

/// The key stream has as many bytes as are asked for.
pub proof fn key_stream_len(s: Seq<u8>, i: u8, j: u8, n: nat)
    ensures
        key_stream(s, i, j, n).len() == n,
    decreases n,
{
    if n > 0 {
        let i1 = i.wrapping_add(1);
        let j1 = j.wrapping_add(s[i1 as int]);
        key_stream_len(swapped(s, i1 as int, j1 as int), i1, j1, (n - 1) as nat);
    }
}

pub(crate) proof fn xor_twice(a: u8, b: u8)
    by (bit_vector)
    ensures
        (a ^ b) ^ b == a,
{
}

/// Applying the cipher twice gives the data back.
pub proof fn rc4_undoes_itself(key: Seq<u8>, data: Seq<u8>)
    ensures
        rc4(key, rc4(key, data)) == data,
{
    let k = key_stream(scheduled(key), 0, 0, data.len());
    assert forall|i: int| 0 <= i < data.len() implies rc4(key, rc4(key, data))[i] == data[i] by {
        xor_twice(data[i], k[i]);
    }
    assert(rc4(key, rc4(key, data)) =~= data);
}

/// The cipher's state.
pub struct Rc4 {
    s: Vec<u8>,
    i: u8,
    j: u8,
}

impl Rc4 {
    pub closed spec fn state(&self) -> (Seq<u8>, u8, u8) {
        (self.s@, self.i, self.j)
    }

    /// Schedule `key`.
    pub fn new(key: &[u8]) -> (r: Self)
        requires
            key@.len() > 0,
        ensures
            r.state() == (scheduled(key@), 0u8, 0u8),
            r.state().0.len() == 256,
    {
        let mut s: Vec<u8> = Vec::new();
        let mut n: u16 = 0;
        while n < 256
            invariant
                n <= 256,
                s@ == identity().subrange(0, n as int),
            decreases 256 - n,
        {
            s.push(n as u8);
            n = n + 1;
            assert(s@ =~= identity().subrange(0, n as int));
        }
        assert(s@ =~= identity());
        let mut i: usize = 0;
        let mut j: u8 = 0;
        while i < 256
            invariant
                i <= 256,
                s@.len() == 256,
                key@.len() > 0,
                scheduled_from(s@, key@, i as int, j) == scheduled(key@),
            decreases 256 - i,
        {
            let a: u8 = s[i];
            j = j.wrapping_add(a).wrapping_add(key[i % key.len()]);
            let b: u8 = s[j as usize];
            s[i] = b;
            s[j as usize] = a;
            i = i + 1;
        }
        Rc4 { s, i: 0, j: 0 }
    }

    /// Combine `data` with the key stream, in place.
    pub fn apply(&mut self, data: &mut Vec<u8>)
        requires
            old(self).state().0.len() == 256,
        ensures
            final(self).state().0.len() == 256,
            final(data)@ == Seq::new(
                old(data)@.len(),
                |i: int|
                    old(data)@[i] ^ key_stream(
                        old(self).state().0,
                        old(self).state().1,
                        old(self).state().2,
                        old(data)@.len(),
                    )[i],
            ),
    {
        let ghost total = old(data)@.len();
        let ghost stream = key_stream(old(self).s@, old(self).i, old(self).j, total);
        let mut n: usize = 0;
        proof {
            key_stream_len(self.s@, self.i, self.j, total);
            assert(stream.skip(0) =~= stream);
        }
        while n < data.len()
            invariant
                self.s@.len() == 256,
                data@.len() == total,
                total == old(data)@.len(),
                n <= total,
                stream.len() == total,
                stream == key_stream(old(self).s@, old(self).i, old(self).j, total),
                key_stream(self.s@, self.i, self.j, (total - n) as nat) == stream.skip(n as int),
                forall|k: int| 0 <= k < n ==> #[trigger] data@[k] == old(data)@[k] ^ stream[k],
                forall|k: int| n <= k < total ==> #[trigger] data@[k] == old(data)@[k],
            decreases total - n,
        {
            let ghost rest = key_stream(self.s@, self.i, self.j, (total - n) as nat);
            self.i = self.i.wrapping_add(1);
            let a: u8 = self.s[self.i as usize];
            self.j = self.j.wrapping_add(a);
            let b: u8 = self.s[self.j as usize];
            self.s[self.i as usize] = b;
            self.s[self.j as usize] = a;
            let k: u8 = self.s[self.s[self.i as usize].wrapping_add(self.s[self.j as usize]) as usize];
            proof {
                assert(rest[0] == stream[n as int]);
                assert(rest == seq![k] + key_stream(self.s@, self.i, self.j, (total - n - 1) as nat));
                assert(rest.skip(1) =~= key_stream(self.s@, self.i, self.j, (total - n - 1) as nat));
                assert(rest.skip(1) =~= stream.skip(n + 1));
            }
            data[n] = data[n] ^ k;
            n = n + 1;
        }
        assert(data@ =~= Seq::new(total, |i: int| old(data)@[i] ^ stream[i]));
    }
}

} // verus!
