use vstd::prelude::*;
use crate::{LOOKAHEAD, MIN_MATCH, WINDOW_SIZE};
use crate::matcher::{
    MatcherView, HASH_SIZE, MAX_CHAIN, hash_spec, insert_spec, chain_spec, longest_match_spec,
    common_length, lemma_hash_local, lemma_chain_keeps_best, lemma_common_length,
    lemma_common_length_range,
};
use crate::format::{
    Token, empty_matcher, insert_run, parse, parse_step, tokens_of, LITERAL_LIMIT, MATCH_BASE,
};

verus! {

/// The tables after recording the positions `0..n` of `input`, in order.
pub open spec fn recorded(input: Seq<u8>, n: int) -> MatcherView
    decreases n,
{
    if n <= 0 {
        empty_matcher()
    } else {
        insert_spec(recorded(input, n - 1), input, n - 1)
    }
}

/// Position `r` starts three bytes of `input` that fall in bucket `h`.
pub open spec fn in_bucket(input: Seq<u8>, h: int, r: int) -> bool {
    &&& 0 <= r
    &&& r + MIN_MATCH <= input.len()
    &&& hash_spec(input, r) == h
}

/// The latest position below `n` in bucket `h`.
pub open spec fn latest(input: Seq<u8>, h: int, n: int) -> Option<usize>
    decreases n,
{
    if n <= 0 {
        None
    } else if in_bucket(input, h, n - 1) {
        Some((n - 1) as usize)
    } else {
        latest(input, h, n - 1)
    }
}

/// How many positions in `p..n` fall in bucket `h`.
pub open spec fn bucket_count(input: Seq<u8>, h: int, p: int, n: int) -> int
    decreases n - p,
{
    if n <= p {
        0
    } else {
        bucket_count(input, h, p, n - 1) + if in_bucket(input, h, n - 1) {
            1int
        } else {
            0int
        }
    }
}

/// The longest match allowed at `q`.
pub open spec fn match_limit(input: Seq<u8>, q: int) -> int {
    if input.len() - q < LOOKAHEAD {
        input.len() - q
    } else {
        LOOKAHEAD as int
    }
}

/// The tables link each bucket's recorded positions, latest first, as far back as the window
/// still holds their links.
pub open spec fn chains_ok(m: MatcherView, input: Seq<u8>, n: int) -> bool {
    &&& m.head.len() == HASH_SIZE
    &&& m.prev.len() == WINDOW_SIZE
    &&& forall|h: int| 0 <= h < HASH_SIZE ==> #[trigger] m.head[h] == latest(input, h, n)
    &&& forall|r: int|
        0 <= r < n && n <= r + WINDOW_SIZE && r + MIN_MATCH <= input.len() ==> #[trigger] m.prev[r
            % (WINDOW_SIZE as int)] == latest(input, hash_spec(input, r), r)
}

proof fn lemma_recorded_chains(input: Seq<u8>, n: int)
    requires
        0 <= n,
        input.len() <= usize::MAX,
    ensures
        chains_ok(recorded(input, n), input, n),
    decreases n,
{
    let w = WINDOW_SIZE as int;
    if n == 0 {
        let m = recorded(input, 0);
        assert forall|h: int| 0 <= h < HASH_SIZE implies #[trigger] m.head[h] == latest(input, h, 0) by {}
    } else {
        let k = n - 1;
        lemma_recorded_chains(input, k);
        let m = recorded(input, k);
        let m2 = recorded(input, n);
        assert(m2 == insert_spec(m, input, k));
        if k + MIN_MATCH <= input.len() {
            let slot = hash_spec(input, k);
            lemma_hash_local(input, k, input, k);
            assert forall|h: int| 0 <= h < HASH_SIZE implies #[trigger] m2.head[h] == latest(
                input,
                h,
                n,
            ) by {
                if h != slot {
                    assert(m.head[h] == latest(input, h, k));
                }
            }
            assert forall|r: int|
                0 <= r < n && n <= r + WINDOW_SIZE && r + MIN_MATCH <= input.len() implies #[trigger] m2.prev[r
                % w] == latest(input, hash_spec(input, r), r) by {
                if r == k {
                    assert(m.head[slot] == latest(input, slot, k));
                } else {
                    assert(r % w != k % w);
                    assert(m.prev[r % w] == latest(input, hash_spec(input, r), r));
                }
            }
        } else {
            assert forall|h: int| 0 <= h < HASH_SIZE implies #[trigger] m2.head[h] == latest(
                input,
                h,
                n,
            ) by {
                assert(m.head[h] == latest(input, h, k));
            }
            assert forall|r: int|
                0 <= r < n && n <= r + WINDOW_SIZE && r + MIN_MATCH <= input.len() implies #[trigger] m2.prev[r
                % w] == latest(input, hash_spec(input, r), r) by {
                assert(m.prev[r % w] == latest(input, hash_spec(input, r), r));
            }
        }
    }
}

/// Below `x`, the latest position of a bucket that holds `p` is at `p` or after it, and it
/// is the last of the bucket's positions counted from `p`.
proof fn lemma_latest(input: Seq<u8>, h: int, p: int, x: int)
    requires
        0 <= p < x,
        in_bucket(input, h, p),
        input.len() <= usize::MAX,
    ensures
        latest(input, h, x) matches Some(s) && p <= s < x && in_bucket(input, h, s as int)
            && bucket_count(input, h, p, x) == bucket_count(input, h, p, s as int) + 1,
    decreases x,
{
    if !in_bucket(input, h, x - 1) {
        lemma_latest(input, h, p, x - 1);
    } else {
        assert(((x - 1) as usize) as int == x - 1);
    }
}

proof fn lemma_bucket_count_bounds(input: Seq<u8>, h: int, p: int, n: int)
    requires
        p <= n,
    ensures
        0 <= bucket_count(input, h, p, n) <= n - p,
    decreases n - p,
{
    if n > p {
        lemma_bucket_count_bounds(input, h, p, n - 1);
    }
}

/// Walking a chain from the latest position below `x` in the bucket of `q` reaches `p`, within
/// the probes left, and keeps a match at least as long as the one at `p`.
proof fn lemma_walk_reaches(
    m: MatcherView,
    input: Seq<u8>,
    q: int,
    p: int,
    x: int,
    floor: int,
    probes: int,
    best_length: int,
    best_source: int,
)
    requires
        input.len() <= usize::MAX,
        chains_ok(m, input, q),
        0 <= p < x <= q,
        q < p + WINDOW_SIZE,
        q + match_limit(input, q) <= input.len(),
        in_bucket(input, hash_spec(input, q), p),
        floor <= p,
        0 <= probes,
        probes + bucket_count(input, hash_spec(input, q), p, x) <= MAX_CHAIN,
        0 <= best_length <= match_limit(input, q),
    ensures
        chain_spec(
            m,
            input,
            q,
            match_limit(input, q),
            floor,
            latest(input, hash_spec(input, q), x),
            probes,
            best_length,
            best_source,
        ).0 >= common_length(input, p, q, 0, match_limit(input, q)),
    decreases x,
{
    let h = hash_spec(input, q);
    let ml = match_limit(input, q);
    lemma_latest(input, h, p, x);
    let s = latest(input, h, x)->0 as int;
    lemma_bucket_count_bounds(input, h, p, s);
    lemma_common_length_range(input, s, q, 0, ml);
    lemma_common_length_range(input, p, q, 0, ml);
    let length = common_length(input, s, q, 0, ml);
    if !(length > best_length && length == ml) {
        let (bl, bs) = if length > best_length {
            (length, s)
        } else {
            (best_length, best_source)
        };
        let w = WINDOW_SIZE as int;
        let next = m.prev[s % w];
        if s == p {
            lemma_chain_keeps_best(m, input, q, ml, floor, next, probes + 1, bl, bs);
        } else {
            assert(next == latest(input, h, s));
            lemma_walk_reaches(m, input, q, p, s, floor, probes + 1, bl, bs);
        }
    }
}

/// Once every position before `q` is recorded, the search at `q` finds any earlier repeat of
/// its first three bytes within the window whose bucket holds at most `MAX_CHAIN` positions
/// from it to `q`: a match at least as long as the bytes the two positions share.
pub proof fn lemma_chain_finds(input: Seq<u8>, p: int, q: int)
    requires
        input.len() <= usize::MAX,
        0 <= p < q,
        q < p + WINDOW_SIZE,
        q + MIN_MATCH <= input.len(),
        input[p] == input[q],
        input[p + 1] == input[q + 1],
        input[p + 2] == input[q + 2],
        bucket_count(input, hash_spec(input, q), p, q) <= MAX_CHAIN,
    ensures
        longest_match_spec(recorded(input, q), input, q) matches Some((length, _)) && length
            >= common_length(input, p, q, 0, match_limit(input, q)),
        common_length(input, p, q, 0, match_limit(input, q)) >= MIN_MATCH,
{
    let m = recorded(input, q);
    lemma_recorded_chains(input, q);
    lemma_hash_local(input, q, input, p);
    let h = hash_spec(input, q);
    let ml = match_limit(input, q);
    let floor = if q >= WINDOW_SIZE - 1 {
        q - (WINDOW_SIZE - 1)
    } else {
        0
    };
    assert(m.head[h] == latest(input, h, q));
    lemma_walk_reaches(m, input, q, p, q, floor, 0, 0, 0);
    lemma_chain_keeps_best(m, input, q, ml, floor, m.head[h], 0, 0, 0);
    assert(ml >= 3);
    assert(common_length(input, p, q, 0, ml) == common_length(input, p, q, 1, ml));
    assert(common_length(input, p, q, 1, ml) == common_length(input, p, q, 2, ml));
    assert(common_length(input, p, q, 2, ml) == common_length(input, p, q, 3, ml));
    assert(crate::matcher::same_bytes(input, p, q, 3)) by {
        assert forall|i: int| 0 <= i < 3 implies #[trigger] input[p + i] == input[q + i] by {
            if i == 1 {
            } else if i == 2 {
            }
        }
    }
    lemma_common_length(input, p, q, 3, ml);
}

/// Any repeat of the first three bytes of `q` at most `MAX_CHAIN` positions back is found once
/// every position before `q` is recorded.
pub proof fn lemma_near_repeat_found(input: Seq<u8>, p: int, q: int)
    requires
        input.len() <= usize::MAX,
        0 <= p < q <= p + MAX_CHAIN,
        q + MIN_MATCH <= input.len(),
        input[p] == input[q],
        input[p + 1] == input[q + 1],
        input[p + 2] == input[q + 2],
    ensures
        longest_match_spec(recorded(input, q), input, q) matches Some((length, _)) && length
            >= common_length(input, p, q, 0, match_limit(input, q)),
{
    lemma_bucket_count_bounds(input, hash_spec(input, q), p, q);
    lemma_chain_finds(input, p, q);
}

/// How many input bytes a token stands for.
pub open spec fn token_len(token: Token) -> int {
    if token.0 < LITERAL_LIMIT {
        1
    } else {
        token.0 - MATCH_BASE
    }
}

/// Where token `i` starts in the input: the bytes the tokens before it stand for.
pub open spec fn token_start(tokens: Seq<Token>, i: int) -> int
    decreases i,
{
    if i <= 0 {
        0
    } else {
        token_start(tokens, i - 1) + token_len(tokens[i - 1])
    }
}

proof fn lemma_token_start_cons(token: Token, rest: Seq<Token>, i: int)
    requires
        0 <= i <= rest.len(),
    ensures
        token_start(seq![token] + rest, i + 1) == token_len(token) + token_start(rest, i),
    decreases i,
{
    let all = seq![token] + rest;
    if i > 0 {
        lemma_token_start_cons(token, rest, i - 1);
        assert(all[i] == rest[i - 1]);
        assert(token_start(all, i + 1) == token_start(all, i) + token_len(all[i]));
        assert(token_start(rest, i) == token_start(rest, i - 1) + token_len(rest[i - 1]));
    } else {
        assert(all[0] == token);
        assert(token_start(all, 0) == 0);
        assert(token_start(rest, 0) == 0);
    }
}

proof fn lemma_insert_run_recorded(input: Seq<u8>, pos: int, n: int)
    requires
        0 <= pos,
        0 <= n,
    ensures
        insert_run(recorded(input, pos), input, pos, n) == recorded(input, pos + n),
    decreases n,
{
    if n > 0 {
        lemma_insert_run_recorded(input, pos, n - 1);
    }
}

proof fn lemma_recorded_bounded(input: Seq<u8>, n: int)
    requires
        0 <= n,
    ensures
        crate::matcher::bounded(recorded(input, n), n),
    decreases n,
{
    if n > 0 {
        lemma_recorded_bounded(input, n - 1);
        crate::matcher::lemma_insert_bounded(recorded(input, n - 1), input, n - 1);
    }
}

/// Each token parsed from `pos` on is chosen with every position before its start recorded.
proof fn lemma_parse_recorded(input: Seq<u8>, pos: int, i: int)
    requires
        0 <= pos,
        0 <= i < parse(input, recorded(input, pos), pos).len(),
    ensures
        ({
            let tokens = parse(input, recorded(input, pos), pos);
            let q = pos + token_start(tokens, i);
            &&& q < input.len()
            &&& tokens[i] == parse_step(input, recorded(input, q), q).0
        }),
    decreases input.len() - pos,
{
    let m = recorded(input, pos);
    let tokens = parse(input, m, pos);
    let (token, m2, p2) = parse_step(input, m, pos);
    let rest = parse(input, m2, p2);
    assert(tokens == seq![token] + rest);
    match longest_match_spec(m, input, pos) {
        Some((length, distance)) => {
            lemma_recorded_bounded(input, pos);
            crate::matcher::lemma_longest_match(m, input, pos);
            lemma_insert_run_recorded(input, pos, length as int);
            assert(token_len(token) == length);
        },
        None => {},
    }
    assert(m2 == recorded(input, p2));
    assert(p2 == pos + token_len(token));
    if i == 0 {
        assert(tokens[0] == token);
    } else {
        lemma_parse_recorded(input, p2, i - 1);
        lemma_token_start_cons(token, rest, i - 1);
        assert(tokens[i] == rest[i - 1]);
    }
}

/// `compress` codes a repeat as a match: where a token starts at `q` and the first three
/// bytes of `q` occurred at an earlier `p` within the window, with at most `MAX_CHAIN`
/// positions of their bucket from `p` to `q`, that token is a match at least as long as the
/// bytes the two positions share.
pub proof fn lemma_compress_matches_repeats(input: Seq<u8>, i: int, p: int)
    requires
        input.len() <= usize::MAX,
        0 <= i < tokens_of(input).len(),
        0 <= p < token_start(tokens_of(input), i),
        token_start(tokens_of(input), i) < p + WINDOW_SIZE,
        token_start(tokens_of(input), i) + MIN_MATCH <= input.len(),
        input[p] == input[token_start(tokens_of(input), i)],
        input[p + 1] == input[token_start(tokens_of(input), i) + 1],
        input[p + 2] == input[token_start(tokens_of(input), i) + 2],
        bucket_count(
            input,
            hash_spec(input, token_start(tokens_of(input), i)),
            p,
            token_start(tokens_of(input), i),
        ) <= MAX_CHAIN,
    ensures
        tokens_of(input)[i].0 >= LITERAL_LIMIT,
        token_len(tokens_of(input)[i]) >= common_length(
            input,
            p,
            token_start(tokens_of(input), i),
            0,
            match_limit(input, token_start(tokens_of(input), i)),
        ),
{
    let q = token_start(tokens_of(input), i);
    assert(recorded(input, 0) == empty_matcher());
    lemma_parse_recorded(input, 0, i);
    lemma_chain_finds(input, p, q);
}

/// Walking a chain down to `p`, as in `lemma_walk_reaches`, ends with a match at least as long
/// as the one at `p`, and, if no longer, no farther back than `p`.
proof fn lemma_walk_best(
    m: MatcherView,
    input: Seq<u8>,
    q: int,
    p: int,
    x: int,
    floor: int,
    probes: int,
    best_length: int,
    best_source: int,
)
    requires
        input.len() <= usize::MAX,
        chains_ok(m, input, q),
        0 <= p < x <= q,
        q < p + WINDOW_SIZE,
        q + match_limit(input, q) <= input.len(),
        in_bucket(input, hash_spec(input, q), p),
        floor <= p,
        0 <= probes,
        probes + bucket_count(input, hash_spec(input, q), p, x) <= MAX_CHAIN,
        0 <= best_length <= match_limit(input, q),
        best_length > 0 ==> p < best_source,
    ensures
        ({
            let (length, source) = chain_spec(
                m,
                input,
                q,
                match_limit(input, q),
                floor,
                latest(input, hash_spec(input, q), x),
                probes,
                best_length,
                best_source,
            );
            let here = common_length(input, p, q, 0, match_limit(input, q));
            &&& here <= length
            &&& here == length && length > 0 ==> p <= source
        }),
    decreases x,
{
    let h = hash_spec(input, q);
    let ml = match_limit(input, q);
    lemma_latest(input, h, p, x);
    let s = latest(input, h, x)->0 as int;
    lemma_bucket_count_bounds(input, h, p, s);
    lemma_common_length_range(input, s, q, 0, ml);
    lemma_common_length_range(input, p, q, 0, ml);
    let length = common_length(input, s, q, 0, ml);
    if !(length > best_length && length == ml) {
        let (bl, bs) = if length > best_length {
            (length, s)
        } else {
            (best_length, best_source)
        };
        let w = WINDOW_SIZE as int;
        let next = m.prev[s % w];
        if s == p {
            lemma_chain_keeps_best(m, input, q, ml, floor, next, probes + 1, bl, bs);
        } else {
            assert(next == latest(input, h, s));
            lemma_walk_best(m, input, q, p, s, floor, probes + 1, bl, bs);
        }
    }
}

/// Once every position before `q` is recorded, the search at `q` gives the longest match among
/// the positions of its bucket within the window and within `MAX_CHAIN` of them, and of equally
/// long ones the nearest: no such position `p` shares more bytes with `q`, and one that shares
/// as many lies no nearer than the match given.
pub proof fn lemma_match_is_longest(input: Seq<u8>, p: int, q: int)
    requires
        input.len() <= usize::MAX,
        0 <= p < q,
        q < p + WINDOW_SIZE,
        q + MIN_MATCH <= input.len(),
        in_bucket(input, hash_spec(input, q), p),
        bucket_count(input, hash_spec(input, q), p, q) <= MAX_CHAIN,
    ensures
        longest_match_spec(recorded(input, q), input, q) is None ==> common_length(
            input,
            p,
            q,
            0,
            match_limit(input, q),
        ) < MIN_MATCH,
        longest_match_spec(recorded(input, q), input, q) matches Some((length, distance)) ==> {
            let here = common_length(input, p, q, 0, match_limit(input, q));
            &&& here <= length
            &&& here == length ==> p <= q - distance - 1
        },
{
    let m = recorded(input, q);
    lemma_recorded_chains(input, q);
    lemma_recorded_bounded(input, q);
    crate::matcher::lemma_longest_match(m, input, q);
    let h = hash_spec(input, q);
    let ml = match_limit(input, q);
    let floor = if q >= WINDOW_SIZE - 1 {
        q - (WINDOW_SIZE - 1)
    } else {
        0
    };
    assert(m.head[h] == latest(input, h, q));
    lemma_walk_best(m, input, q, p, q, floor, 0, 0, 0);
    lemma_chain_keeps_best(m, input, q, ml, floor, m.head[h], 0, 0, 0);
    crate::matcher::lemma_chain(m, input, q, ml, floor, m.head[h], 0, 0, 0);
}

} // verus!
