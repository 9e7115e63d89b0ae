use vstd::prelude::*;
use crate::rc4::{identity, key_stream, key_stream_len, rc4, scheduled, scheduled_from, swapped};

verus! {

// The cipher step by step: every state but for two places is the one before it.

/// `b` is `a` with what stands at `i` and at `j` exchanged.
pub open spec fn exchanged(a: Seq<u8>, b: Seq<u8>, i: int, j: int) -> bool {
    &&& a.len() == 256
    &&& b.len() == 256
    &&& b[i] == a[j]
    &&& b[j] == a[i]
    &&& forall|k: int| 0 <= k < 256 && k != i && k != j ==> #[trigger] b[k] == a[k]
}

/// The states while the key is taken up: at first every value stands at its own place;
/// then, place after place, what stands there is exchanged with what stands at `js`, which
/// moves on by the value and by a byte of the key, the key being repeated as often as it
/// takes.
pub open spec fn takes_up(key: Seq<u8>, states: Seq<Seq<u8>>, js: Seq<int>) -> bool {
    &&& states.len() == 257
    &&& js.len() == 257
    &&& js[0] == 0
    &&& states[0].len() == 256
    &&& forall|k: int| 0 <= k < 256 ==> #[trigger] states[0][k] == k
    &&& forall|i: int|
        0 <= i < 256 ==> {
            &&& #[trigger] js[i + 1] == (js[i] + states[i][i] + key[i % (key.len() as int)]) % 256
            &&& exchanged(states[i], states[i + 1], i, js[i + 1])
        }
}

/// The states while `n` bytes are enciphered: the place moves on by one each time, and `js`
/// by the value that stands there.
pub open spec fn enciphers(n: nat, states: Seq<Seq<u8>>, js: Seq<int>) -> bool {
    &&& states.len() == n + 1
    &&& js.len() == n + 1
    &&& js[0] == 0
    &&& forall|t: int|
        0 <= t < n ==> {
            &&& #[trigger] js[t + 1] == (js[t] + states[t][(t + 1) % 256]) % 256
            &&& exchanged(states[t], states[t + 1], (t + 1) % 256, js[t + 1])
        }
}

proof fn exchange_is_swap(a: Seq<u8>, b: Seq<u8>, i: int, j: int)
    requires
        exchanged(a, b, i, j),
        0 <= i < 256,
        0 <= j < 256,
    ensures
        b == swapped(a, i, j),
{
    assert(b =~= swapped(a, i, j));
}

proof fn schedule_follows(key: Seq<u8>, states: Seq<Seq<u8>>, js: Seq<int>, i: int)
    requires
        key.len() > 0,
        takes_up(key, states, js),
        0 <= i <= 256,
        0 <= js[i] < 256,
    ensures
        scheduled_from(states[i], key, i, js[i] as u8) == states[256],
    decreases 256 - i,
{
    if i < 256 {
        assert(js[i + 1] == (js[i] + states[i][i] + key[i % (key.len() as int)]) % 256);
        exchange_is_swap(states[i], states[i + 1], i, js[i + 1]);
        let j = js[i] as u8;
        assert(j.wrapping_add(states[i][i]).wrapping_add(key[i % (key.len() as int)]) == js[i + 1]);
        schedule_follows(key, states, js, i + 1);
    }
}

proof fn stream_follows(n: nat, states: Seq<Seq<u8>>, js: Seq<int>, t: int, k: int)
    requires
        enciphers(n, states, js),
        0 <= t <= k < n,
        0 <= js[t] < 256,
    ensures
        ({
            let i = (k + 1) % 256;
            let s = states[k + 1];
            key_stream(states[t], (t % 256) as u8, js[t] as u8, (n - t) as nat)[k - t] == s[(s[i] + s[js[k + 1]]) % 256]
        }),
    decreases n - t,
{
    let i = (t + 1) % 256;
    assert(js[t + 1] == (js[t] + states[t][i]) % 256);
    exchange_is_swap(states[t], states[t + 1], i, js[t + 1]);
    let i0 = (t % 256) as u8;
    assert(i0.wrapping_add(1) == i);
    assert((js[t] as u8).wrapping_add(states[t][i]) == js[t + 1]);
    let s = states[t + 1];
    assert(s[i].wrapping_add(s[js[t + 1]]) == (s[i] + s[js[t + 1]]) % 256);
    let rest = key_stream(s, i as u8, js[t + 1] as u8, (n - t - 1) as nat);
    key_stream_len(s, i as u8, js[t + 1] as u8, (n - t - 1) as nat);
    if k > t {
        stream_follows(n, states, js, t + 1, k);
    }
}

/// Byte number `k` is combined with the value that stands, after the exchange, at the sum
/// of the two values that were exchanged.
pub proof fn cipher_follows_its_states(
    key: Seq<u8>,
    data: Seq<u8>,
    first: Seq<Seq<u8>>,
    first_js: Seq<int>,
    states: Seq<Seq<u8>>,
    js: Seq<int>,
    k: int,
)
    requires
        key.len() > 0,
        takes_up(key, first, first_js),
        enciphers(data.len(), states, js),
        states[0] == first[256],
        0 <= k < data.len(),
    ensures
        ({
            let i = (k + 1) % 256;
            let s = states[k + 1];
            rc4(key, data)[k] == data[k] ^ s[(s[i] + s[js[k + 1]]) % 256]
        }),
        rc4(key, data).len() == data.len(),
{
    assert(first[0] =~= identity());
    schedule_follows(key, first, first_js, 0);
    assert(scheduled(key) == states[0]);
    stream_follows(data.len(), states, js, 0, k);
}

} // verus!
