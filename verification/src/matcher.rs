use vstd::prelude::*;
use crate::{LOOKAHEAD, MIN_MATCH, WINDOW_MASK, WINDOW_SIZE};

verus! {

pub const HASH_SIZE: usize = 8192;

pub const MAX_CHAIN: usize = 256;

/// The bucket of the three bytes at `pos`: a multiplicative hash to thirteen bits.
pub open spec fn hash_spec(input: Seq<u8>, pos: int) -> int {
    let key: u32 = ((input[pos] as u32) << 16u32) | ((input[pos + 1] as u32) << 8u32) | (input[pos
        + 2] as u32);
    ((vstd::wrapping::u32_specs::wrapping_mul(key, 0x9E37_79B1u32) >> 19u32) as int) % (
    HASH_SIZE as int)
}

/// The matcher's tables: the latest position of each bucket, and for each window slot the
/// position inserted before it in the same bucket.
pub struct MatcherView {
    pub head: Seq<Option<usize>>,
    pub prev: Seq<Option<usize>>,
}

/// Every position in the tables is below `bound`.
pub open spec fn bounded(m: MatcherView, bound: int) -> bool {
    &&& m.head.len() == HASH_SIZE
    &&& m.prev.len() == WINDOW_SIZE
    &&& forall|i: int| 0 <= i < HASH_SIZE ==> (#[trigger] m.head[i] matches Some(x) ==> x < bound)
    &&& forall|i: int| 0 <= i < WINDOW_SIZE ==> (#[trigger] m.prev[i] matches Some(x) ==> x < bound)
}

/// The tables after inserting the position `pos` of `input`.
pub open spec fn insert_spec(m: MatcherView, input: Seq<u8>, pos: int) -> MatcherView {
    if pos + MIN_MATCH <= input.len() {
        let slot = hash_spec(input, pos);
        MatcherView {
            head: m.head.update(slot, Some(pos as usize)),
            prev: m.prev.update(pos % (WINDOW_SIZE as int), m.head[slot]),
        }
    } else {
        m
    }
}

/// How many bytes from `source + k` on agree with those from `pos + k` on, up to `max_length`.
pub open spec fn common_length(input: Seq<u8>, source: int, pos: int, k: int, max_length: int) -> int
    decreases max_length - k,
{
    if k < max_length && input[source + k] == input[pos + k] {
        common_length(input, source, pos, k + 1, max_length)
    } else {
        k
    }
}

/// Walks the chain of earlier positions from `candidate`, keeping the longest match so far.
pub open spec fn chain_spec(
    m: MatcherView,
    input: Seq<u8>,
    pos: int,
    max_length: int,
    floor: int,
    candidate: Option<usize>,
    probes: int,
    best_length: int,
    best_source: int,
) -> (int, int)
    decreases MAX_CHAIN - probes,
{
    match candidate {
        Some(source) => {
            if source >= floor && probes < MAX_CHAIN {
                let length = common_length(input, source as int, pos, 0, max_length);
                if length > best_length && length == max_length {
                    (length, source as int)
                } else {
                    let (bl, bs) = if length > best_length {
                        (length, source as int)
                    } else {
                        (best_length, best_source)
                    };
                    chain_spec(
                        m,
                        input,
                        pos,
                        max_length,
                        floor,
                        m.prev[source as int % (WINDOW_SIZE as int)],
                        probes + 1,
                        bl,
                        bs,
                    )
                }
            } else {
                (best_length, best_source)
            }
        },
        None => (best_length, best_source),
    }
}

/// The longest match for `pos` among the chained earlier positions in the window, as its
/// length and its distance minus one, if it is at least `MIN_MATCH` long.
pub open spec fn longest_match_spec(m: MatcherView, input: Seq<u8>, pos: int) -> Option<
    (usize, usize),
> {
    if pos + MIN_MATCH > input.len() {
        None
    } else {
        let max_length = if input.len() - pos < LOOKAHEAD {
            input.len() - pos
        } else {
            LOOKAHEAD as int
        };
        let floor = if pos >= WINDOW_SIZE - 1 {
            pos - (WINDOW_SIZE - 1)
        } else {
            0
        };
        let (bl, bs) = chain_spec(
            m,
            input,
            pos,
            max_length,
            floor,
            m.head[hash_spec(input, pos)],
            0,
            0,
            0,
        );
        if bl >= MIN_MATCH {
            Some((bl as usize, (pos - bs - 1) as usize))
        } else {
            None
        }
    }
}

/// `input[source..source + length]` equals `input[pos..pos + length]`.
pub open spec fn same_bytes(input: Seq<u8>, source: int, pos: int, length: int) -> bool {
    forall|i: int| 0 <= i < length ==> #[trigger] input[source + i] == input[pos + i]
}

pub proof fn lemma_common_length(input: Seq<u8>, source: int, pos: int, k: int, max_length: int)
    requires
        0 <= source < pos,
        0 <= k <= max_length,
        pos + max_length <= input.len(),
        same_bytes(input, source, pos, k),
    ensures
        k <= common_length(input, source, pos, k, max_length) <= max_length,
        same_bytes(input, source, pos, common_length(input, source, pos, k, max_length)),
    decreases max_length - k,
{
    if k < max_length && input[source + k] == input[pos + k] {
        assert(same_bytes(input, source, pos, k + 1)) by {
            assert forall|i: int| 0 <= i < k + 1 implies #[trigger] input[source + i] == input[pos
                + i] by {}
        }
        lemma_common_length(input, source, pos, k + 1, max_length);
    }
}

/// The match kept along a chain is a real match inside the window.
pub proof fn lemma_chain(
    m: MatcherView,
    input: Seq<u8>,
    pos: int,
    max_length: int,
    floor: int,
    candidate: Option<usize>,
    probes: int,
    best_length: int,
    best_source: int,
)
    requires
        bounded(m, pos),
        0 <= floor,
        0 <= max_length,
        pos + max_length <= input.len(),
        candidate matches Some(x) ==> x < pos,
        0 <= best_length <= max_length,
        best_length > 0 ==> floor <= best_source < pos && same_bytes(
            input,
            best_source,
            pos,
            best_length,
        ),
    ensures
        ({
            let (bl, bs) = chain_spec(
                m,
                input,
                pos,
                max_length,
                floor,
                candidate,
                probes,
                best_length,
                best_source,
            );
            &&& 0 <= bl <= max_length
            &&& bl > 0 ==> floor <= bs < pos && same_bytes(input, bs, pos, bl)
        }),
    decreases MAX_CHAIN - probes,
{
    if let Some(source) = candidate {
        if source >= floor && probes < MAX_CHAIN {
            lemma_common_length(input, source as int, pos, 0, max_length);
            let length = common_length(input, source as int, pos, 0, max_length);
            if !(length > best_length && length == max_length) {
                let (bl, bs) = if length > best_length {
                    (length, source as int)
                } else {
                    (best_length, best_source)
                };
                let next = m.prev[source as int % (WINDOW_SIZE as int)];
                assert(next matches Some(x) ==> x < pos) by {
                    assert(m.prev[source as int % (WINDOW_SIZE as int)] == next);
                }
                lemma_chain(m, input, pos, max_length, floor, next, probes + 1, bl, bs);
            }
        }
    }
}

/// A match found for `pos` repeats bytes from at most a window back.
pub proof fn lemma_longest_match(m: MatcherView, input: Seq<u8>, pos: int)
    requires
        bounded(m, pos),
        0 <= pos,
    ensures
        longest_match_spec(m, input, pos) matches Some((length, distance)) ==> {
            &&& MIN_MATCH <= length <= LOOKAHEAD
            &&& pos + length <= input.len()
            &&& distance < WINDOW_SIZE - 1
            &&& distance < pos
            &&& same_bytes(input, pos - distance - 1, pos, length as int)
        },
{
    if pos + MIN_MATCH <= input.len() {
        let max_length = if input.len() - pos < LOOKAHEAD {
            input.len() - pos
        } else {
            LOOKAHEAD as int
        };
        let floor = if pos >= WINDOW_SIZE - 1 {
            pos - (WINDOW_SIZE - 1)
        } else {
            0
        };
        let h = hash_spec(input, pos);
        assert(0 <= h < HASH_SIZE);
        assert(m.head[h] matches Some(x) ==> x < pos);
        lemma_chain(m, input, pos, max_length, floor, m.head[h], 0, 0, 0);
    }
}

pub proof fn lemma_insert_bounded(m: MatcherView, input: Seq<u8>, pos: int)
    requires
        bounded(m, pos),
        0 <= pos,
    ensures
        bounded(insert_spec(m, input, pos), pos + 1),
{
    if pos + MIN_MATCH <= input.len() {
        let slot = hash_spec(input, pos);
        assert(0 <= slot < HASH_SIZE);
        assert(m.head[slot] matches Some(x) ==> x < pos);
    }
}

/// The bucket depends on the three bytes at the position alone, and is an index into `head`.
pub proof fn lemma_hash_local(a: Seq<u8>, i: int, b: Seq<u8>, j: int)
    requires
        0 <= i,
        i + MIN_MATCH <= a.len(),
        0 <= j,
        j + MIN_MATCH <= b.len(),
        a[i] == b[j],
        a[i + 1] == b[j + 1],
        a[i + 2] == b[j + 2],
    ensures
        hash_spec(a, i) == hash_spec(b, j),
        0 <= hash_spec(a, i) < HASH_SIZE,
{
}

pub proof fn lemma_common_length_range(input: Seq<u8>, source: int, pos: int, k: int, max_length: int)
    requires
        k <= max_length,
    ensures
        k <= common_length(input, source, pos, k, max_length) <= max_length,
    decreases max_length - k,
{
    if k < max_length && input[source + k] == input[pos + k] {
        lemma_common_length_range(input, source, pos, k + 1, max_length);
    }
}

/// Walking on along a chain never loses the best match found so far, and keeps its source
/// unless it finds a longer one.
pub proof fn lemma_chain_keeps_best(
    m: MatcherView,
    input: Seq<u8>,
    pos: int,
    max_length: int,
    floor: int,
    candidate: Option<usize>,
    probes: int,
    best_length: int,
    best_source: int,
)
    requires
        0 <= best_length <= max_length,
    ensures
        best_length <= chain_spec(
            m,
            input,
            pos,
            max_length,
            floor,
            candidate,
            probes,
            best_length,
            best_source,
        ).0 <= max_length,
        chain_spec(m, input, pos, max_length, floor, candidate, probes, best_length, best_source).0
            == best_length ==> chain_spec(
            m,
            input,
            pos,
            max_length,
            floor,
            candidate,
            probes,
            best_length,
            best_source,
        ).1 == best_source,
    decreases MAX_CHAIN - probes,
{
    if let Some(source) = candidate {
        if source >= floor && probes < MAX_CHAIN {
            lemma_common_length_range(input, source as int, pos, 0, max_length);
            let length = common_length(input, source as int, pos, 0, max_length);
            if !(length > best_length && length == max_length) {
                let (bl, bs) = if length > best_length {
                    (length, source as int)
                } else {
                    (best_length, best_source)
                };
                let next = m.prev[source as int % (WINDOW_SIZE as int)];
                lemma_chain_keeps_best(m, input, pos, max_length, floor, next, probes + 1, bl, bs);
            }
        }
    }
}

/// Right after position `pos` is recorded, a search at a later position `q` within the window
/// that starts with the same three bytes finds a match, at least as long as the bytes that
/// `pos` and `q` have in common (up to the longest match allowed at `q`).
pub proof fn lemma_insert_then_match(m: MatcherView, input: Seq<u8>, pos: int, q: int)
    requires
        m.head.len() == HASH_SIZE,
        m.prev.len() == WINDOW_SIZE,
        0 <= pos < q,
        q <= pos + (WINDOW_SIZE - 1),
        q + MIN_MATCH <= input.len() <= usize::MAX,
        input[q] == input[pos],
        input[q + 1] == input[pos + 1],
        input[q + 2] == input[pos + 2],
    ensures
        ({
            let max_length = if input.len() - q < LOOKAHEAD {
                input.len() - q
            } else {
                LOOKAHEAD as int
            };
            longest_match_spec(insert_spec(m, input, pos), input, q) matches Some((length, _))
                && length >= common_length(input, pos, q, 0, max_length)
        }),
{
    let m2 = insert_spec(m, input, pos);
    let max_length = if input.len() - q < LOOKAHEAD {
        input.len() - q
    } else {
        LOOKAHEAD as int
    };
    let floor = if q >= WINDOW_SIZE - 1 {
        q - (WINDOW_SIZE - 1)
    } else {
        0
    };
    lemma_hash_local(input, q, input, pos);
    let slot = hash_spec(input, q);
    assert(m2.head[slot] == Some(pos as usize));
    assert(common_length(input, pos, q, 0, max_length) == common_length(input, pos, q, 1, max_length));
    assert(common_length(input, pos, q, 1, max_length) == common_length(input, pos, q, 2, max_length));
    assert(common_length(input, pos, q, 2, max_length) == common_length(input, pos, q, 3, max_length));
    assert(same_bytes(input, pos, q, 3)) by {
        assert forall|i: int| 0 <= i < 3 implies #[trigger] input[pos + i] == input[q + i] by {
            if i == 1 {
            } else if i == 2 {
            }
        }
    }
    lemma_common_length(input, pos, q, 3, max_length);
    lemma_common_length_range(input, pos, q, 0, max_length);
    let length = common_length(input, pos, q, 0, max_length);
    let start = m2.head[hash_spec(input, q)];
    assert(start == Some(pos as usize));
    assert(chain_spec(m2, input, q, max_length, floor, start, 0, 0, 0) == if length > 0 && length
        == max_length {
        (length, pos)
    } else {
        chain_spec(m2, input, q, max_length, floor, m2.prev[pos % (WINDOW_SIZE as int)], 1, length, pos)
    });
    if !(length > 0 && length == max_length) {
        lemma_chain_keeps_best(
            m2,
            input,
            q,
            max_length,
            floor,
            m2.prev[pos % (WINDOW_SIZE as int)],
            1,
            length,
            pos,
        );
    }
    let (bl, bs) = chain_spec(m2, input, q, max_length, floor, start, 0, 0, 0);
    assert(length >= MIN_MATCH);
    assert(bl >= length);
    assert(longest_match_spec(m2, input, q) == Some((bl as usize, (q - bs - 1) as usize)));
}

pub struct Matcher {
    head: Vec<Option<usize>>,
    prev: Vec<Option<usize>>,
}

impl View for Matcher {
    type V = MatcherView;

    closed spec fn view(&self) -> MatcherView {
        MatcherView { head: self.head@, prev: self.prev@ }
    }
}

impl Matcher {
    /// Empty tables.
    pub fn new() -> (r: Self)
        ensures
            r@ == (MatcherView {
                head: Seq::new(HASH_SIZE as nat, |i: int| None),
                prev: Seq::new(WINDOW_SIZE as nat, |i: int| None),
            }),
            bounded(r@, 0),
    {
        let r = Matcher { head: vec![None; HASH_SIZE], prev: vec![None; WINDOW_SIZE] };
        proof {
            assert(r@.head =~= Seq::new(HASH_SIZE as nat, |i: int| None::<usize>));
            assert(r@.prev =~= Seq::new(WINDOW_SIZE as nat, |i: int| None::<usize>));
        }
        r
    }

    /// The bucket of the three bytes at `pos`.
    fn hash(input: &[u8], pos: usize) -> (r: usize)
        requires
            pos + 3 <= input@.len(),
        ensures
            r == hash_spec(input@, pos as int),
            r < HASH_SIZE,
    {
        let key = ((input[pos] as u32) << 16) | ((input[pos + 1] as u32) << 8) | (input[pos
            + 2] as u32);
        let mixed = key.wrapping_mul(0x9E37_79B1);
        let top = mixed >> 19;
        let r = top as usize & (HASH_SIZE - 1);
        assert(r == top as usize % 8192 && r < 8192) by (bit_vector)
            requires
                r == top as usize & 8191usize,
        ;
        r
    }

    /// Records position `pos` of `input` in its bucket's chain, if three bytes start there.
    pub fn insert(&mut self, input: &[u8], pos: usize)
        requires
            pos + MIN_MATCH <= usize::MAX,
            old(self)@.head.len() == HASH_SIZE,
            old(self)@.prev.len() == WINDOW_SIZE,
        ensures
            final(self)@ == insert_spec(old(self)@, input@, pos as int),
    {
        if pos + MIN_MATCH <= input.len() {
            let slot = Self::hash(input, pos);
            let h = self.head[slot];
            assert(pos & WINDOW_MASK == pos % 4096) by (bit_vector);
            self.prev.set(pos & WINDOW_MASK, h);
            self.head.set(slot, Some(pos));
        }
    }

    /// The longest earlier match for `pos`: its length and its distance minus one.
    pub fn longest_match(&self, input: &[u8], pos: usize) -> (r: Option<(usize, usize)>)
        requires
            pos + MIN_MATCH <= input@.len() ==> bounded(self@, pos as int),
            pos + MIN_MATCH <= usize::MAX,
        ensures
            r == longest_match_spec(self@, input@, pos as int),
    {
        if pos + MIN_MATCH > input.len() {
            return None;
        }
        let max_length = if input.len() - pos < LOOKAHEAD {
            input.len() - pos
        } else {
            LOOKAHEAD
        };
        let window_floor = pos.saturating_sub(WINDOW_SIZE - 1);
        let mut candidate = self.head[Self::hash(input, pos)];
        let ghost start = candidate;
        let mut probes = 0usize;
        let mut best_length = 0usize;
        let mut best_source = 0usize;
        let ghost target = chain_spec(
            self@,
            input@,
            pos as int,
            max_length as int,
            window_floor as int,
            start,
            0,
            0,
            0,
        );
        proof {
            assert(self@.head[hash_spec(input@, pos as int)] matches Some(x) ==> x < pos);
        }
        loop
            invariant_except_break
                bounded(self@, pos as int),
                pos + max_length <= input@.len() <= usize::MAX,
                max_length <= LOOKAHEAD,
                probes <= MAX_CHAIN,
                candidate matches Some(x) ==> x < pos,
                best_length <= max_length,
                best_length > 0 ==> best_source < pos,
                chain_spec(
                    self@,
                    input@,
                    pos as int,
                    max_length as int,
                    window_floor as int,
                    candidate,
                    probes as int,
                    best_length as int,
                    best_source as int,
                ) == target,
            ensures
                (best_length as int, best_source as int) == target,
                best_length <= max_length,
                best_length > 0 ==> best_source < pos,
            decreases MAX_CHAIN - probes,
        {
            let source = match candidate {
                Some(s) => s,
                None => {
                    break;
                },
            };
            if !(source >= window_floor && probes < MAX_CHAIN) {
                break;
            }
            let mut length = 0usize;
            while length < max_length && input[source + length] == input[pos + length]
                invariant
                    source < pos,
                    pos + max_length <= input@.len() <= usize::MAX,
                    length <= max_length,
                    common_length(input@, source as int, pos as int, length as int, max_length as int)
                        == common_length(input@, source as int, pos as int, 0, max_length as int),
                decreases max_length - length,
            {
                length += 1;
            }
            if length > best_length {
                best_length = length;
                best_source = source;
                if length == max_length {
                    break;
                }
            }
            assert(source & WINDOW_MASK == source % 4096) by (bit_vector);
            candidate = self.prev[source & WINDOW_MASK];
            probes += 1;
        }
        if best_length >= MIN_MATCH {
            Some((best_length, pos - best_source - 1))
        } else {
            None
        }
    }
}

} // verus!
