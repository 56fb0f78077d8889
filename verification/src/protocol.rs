//! The line protocol: splitting a command line into whitespace-separated
//! tokens, reading the time-to-live argument, and dispatching one command
//! against the store to produce one response line.

use crate::store::{
    clone_bytes, del_after, distinct_keys, get_after, get_result, has_key, lemma_ttl_correctness,
    live_entries, live_keys, sat_add, set_spec, KeyValueStore, Rec,
};
use vstd::prelude::*;

verus! {

/// ASCII whitespace, the token separator of the wire protocol.
pub open spec fn is_ws(b: u8) -> bool {
    b == 9 || b == 10 || b == 11 || b == 12 || b == 13 || b == 32
}

/// The tokens of the remainder `s` of a line, with `cur` the token read so
/// far: the recursion consumes one byte at a time, closing the current
/// token at each separator.
pub open spec fn toks_rec(s: Seq<u8>, cur: Seq<u8>) -> Seq<Seq<u8>>
    decreases s.len(),
{
    if s.len() == 0 {
        if cur.len() == 0 {
            Seq::empty()
        } else {
            seq![cur]
        }
    } else if is_ws(s.first()) {
        if cur.len() == 0 {
            toks_rec(s.drop_first(), Seq::empty())
        } else {
            seq![cur] + toks_rec(s.drop_first(), Seq::empty())
        }
    } else {
        toks_rec(s.drop_first(), cur.push(s.first()))
    }
}

/// The whitespace-separated tokens of a line. Leading, trailing and
/// repeated separators contribute nothing, so an all-whitespace line has
/// no tokens at all.
pub open spec fn tokens(s: Seq<u8>) -> Seq<Seq<u8>> {
    toks_rec(s, Seq::empty())
}

/// Splits a line into its whitespace-separated tokens.
#[verifier::loop_isolation(false)]
pub fn tokenize(line: &[u8]) -> (r: Vec<Vec<u8>>)
    ensures
        r@.map_values(|t: Vec<u8>| t@) == tokens(line@),
{
    let mut out: Vec<Vec<u8>> = Vec::new();
    let mut cur: Vec<u8> = Vec::new();
    let mut i: usize = 0;
    proof {
        assert(line@.skip(0) =~= line@);
        assert(out@.map_values(|t: Vec<u8>| t@) =~= Seq::<Seq<u8>>::empty());
        assert(Seq::<Seq<u8>>::empty() + toks_rec(line@, Seq::empty()) =~= toks_rec(
            line@,
            Seq::empty(),
        ));
    }
    while i < line.len()
        invariant
            i <= line.len(),
            tokens(line@) == out@.map_values(|t: Vec<u8>| t@) + toks_rec(
                line@.skip(i as int),
                cur@,
            ),
        decreases line.len() - i,
    {
        let b = line[i];
        let ghost rest = line@.skip(i as int);
        let ghost cur0 = cur@;
        proof {
            assert(rest.len() > 0);
            assert(rest.first() == line@[i as int]);
            assert(rest.drop_first() =~= line@.skip(i + 1 as int));
        }
        if b == 9 || b == 10 || b == 11 || b == 12 || b == 13 || b == 32 {
            proof {
                assert(is_ws(rest.first()));
            }
            if cur.len() > 0 {
                let ghost out0 = out@;
                let done = cur;
                cur = Vec::new();
                out.push(done);
                proof {
                    assert(toks_rec(rest, cur0) == seq![cur0] + toks_rec(
                        line@.skip(i + 1 as int),
                        Seq::empty(),
                    ));
                    assert(out@ == out0.push(done));
                    assert(out@.map_values(|t: Vec<u8>| t@) =~= out0.map_values(|t: Vec<u8>| t@)
                        + seq![cur0]);
                    assert(out0.map_values(|t: Vec<u8>| t@) + (seq![cur0] + toks_rec(
                        line@.skip(i + 1 as int),
                        Seq::empty(),
                    )) =~= out@.map_values(|t: Vec<u8>| t@) + toks_rec(
                        line@.skip(i + 1 as int),
                        Seq::empty(),
                    ));
                }
            } else {
                proof {
                    assert(cur0 =~= Seq::<u8>::empty());
                    assert(toks_rec(rest, cur0) == toks_rec(
                        line@.skip(i + 1 as int),
                        Seq::empty(),
                    ));
                    assert(toks_rec(line@.skip(i + 1 as int), Seq::empty()) == toks_rec(
                        line@.skip(i + 1 as int),
                        cur0,
                    ));
                }
            }
        } else {
            cur.push(b);
            proof {
                assert(!is_ws(rest.first()));
                assert(cur@ == cur0.push(b));
                assert(toks_rec(rest, cur0) == toks_rec(line@.skip(i + 1 as int), cur@));
            }
        }
        i += 1;
    }
    proof {
        assert(line@.skip(line@.len() as int) =~= Seq::<u8>::empty());
    }
    if cur.len() > 0 {
        let ghost out0 = out@;
        let ghost cur0 = cur@;
        out.push(cur);
        proof {
            assert(out@.map_values(|t: Vec<u8>| t@) =~= out0.map_values(|t: Vec<u8>| t@) + seq![
                cur0,
            ]);
        }
    } else {
        proof {
            assert(out@.map_values(|t: Vec<u8>| t@) + Seq::<Seq<u8>>::empty() =~= out@.map_values(
                |t: Vec<u8>| t@,
            ));
        }
    }
    out
}

/// An ASCII decimal digit.
pub open spec fn is_digit(b: u8) -> bool {
    48 <= b && b <= 57
}

/// Every byte of `s` is a digit.
pub open spec fn all_digits(s: Seq<u8>) -> bool {
    forall|i: int| 0 <= i < s.len() ==> is_digit(#[trigger] s[i])
}

/// The number written by the digit string `s`, most significant first.
pub open spec fn digits_val(s: Seq<u8>) -> int
    decreases s.len(),
{
    if s.len() == 0 {
        0
    } else {
        digits_val(s.drop_last()) * 10 + s.last() - 48
    }
}

/// What reading `s` as an unsigned 64-bit decimal number yields: an
/// optional leading plus sign, then at least one digit, the whole value
/// within range — anything else reads as nothing.
pub open spec fn parse_u64_spec(s: Seq<u8>) -> Option<u64> {
    let d = if s.len() > 0 && s[0] == 43 {
        s.drop_first()
    } else {
        s
    };
    if d.len() > 0 && all_digits(d) && digits_val(d) <= u64::MAX {
        Some(digits_val(d) as u64)
    } else {
        None
    }
}

/// A digit string names a non-negative number.
proof fn lemma_digits_val_nonneg(s: Seq<u8>)
    requires
        all_digits(s),
    ensures
        digits_val(s) >= 0,
    decreases s.len(),
{
    if s.len() > 0 {
        assert(all_digits(s.drop_last()));
        lemma_digits_val_nonneg(s.drop_last());
    }
}

/// Extending a digit string never shrinks its value.
proof fn lemma_digits_val_prefix(s: Seq<u8>, j: int)
    requires
        all_digits(s),
        0 <= j <= s.len(),
    ensures
        digits_val(s) >= digits_val(s.take(j)),
    decreases s.len() - j,
{
    if j < s.len() {
        assert(s.take(j + 1).drop_last() =~= s.take(j));
        assert(s.take(j + 1).last() == s[j]);
        assert(all_digits(s.take(j)));
        lemma_digits_val_nonneg(s.take(j));
        assert(digits_val(s.take(j + 1)) == digits_val(s.take(j)) * 10 + s[j] - 48);
        assert(digits_val(s.take(j + 1)) >= digits_val(s.take(j)));
        lemma_digits_val_prefix(s, j + 1);
        assert(s.take(s.len() as int) =~= s);
    } else {
        assert(s.take(j) =~= s);
    }
}

/// Reads a token as an unsigned 64-bit decimal number.
#[verifier::loop_isolation(false)]
pub fn parse_u64(s: &[u8]) -> (r: Option<u64>)
    ensures
        r == parse_u64_spec(s@),
{
    let start: usize = if s.len() > 0 && s[0] == 43 {
        1
    } else {
        0
    };
    let ghost d = if s@.len() > 0 && s@[0] == 43 {
        s@.drop_first()
    } else {
        s@
    };
    proof {
        assert(d =~= s@.skip(start as int));
    }
    if s.len() == start {
        return None;
    }
    let mut acc: u64 = 0;
    let mut i: usize = start;
    while i < s.len()
        invariant
            start <= i <= s.len(),
            d == s@.skip(start as int),
            s@.len() > start,
            all_digits(d.take((i - start) as int)),
            acc == digits_val(d.take((i - start) as int)),
        decreases s.len() - i,
    {
        let b = s[i];
        proof {
            assert(d.take((i + 1 - start) as int).drop_last() =~= d.take((i - start) as int));
            assert(d.take((i + 1 - start) as int).last() == d[(i - start) as int]);
            assert(d[(i - start) as int] == s@[i as int]);
        }
        if b < 48 || b > 57 {
            proof {
                assert(!is_digit(d[(i - start) as int]));
                assert(!all_digits(d));
            }
            return None;
        }
        let step = match acc.checked_mul(10) {
            Some(m) => m.checked_add((b - 48) as u64),
            None => None,
        };
        match step {
            Some(next) => {
                acc = next;
            },
            None => {
                proof {
                    assert(digits_val(d.take((i + 1 - start) as int)) > u64::MAX);
                    if all_digits(d) {
                        lemma_digits_val_prefix(d, (i + 1 - start) as int);
                    }
                }
                return None;
            },
        }
        i += 1;
    }
    proof {
        assert(d.take(((s@.len() - start)) as int) =~= d);
    }
    Some(acc)
}

/// The verb `SET` as bytes.
pub open spec fn set_tok() -> Seq<u8> {
    seq![83u8, 69u8, 84u8]
}

/// The verb `GET` as bytes.
pub open spec fn get_tok() -> Seq<u8> {
    seq![71u8, 69u8, 84u8]
}

/// The verb `DEL` as bytes.
pub open spec fn del_tok() -> Seq<u8> {
    seq![68u8, 69u8, 76u8]
}

/// The verb `ALL` as bytes.
pub open spec fn all_tok() -> Seq<u8> {
    seq![65u8, 76u8, 76u8]
}

/// The response `OK` with its newline.
pub open spec fn resp_ok() -> Seq<u8> {
    seq![79u8, 75u8, 10u8]
}

/// The response `NULL` with its newline.
pub open spec fn resp_null() -> Seq<u8> {
    seq![78u8, 85u8, 76u8, 76u8, 10u8]
}

/// The response `DELETED` with its newline.
pub open spec fn resp_deleted() -> Seq<u8> {
    seq![68u8, 69u8, 76u8, 69u8, 84u8, 69u8, 68u8, 10u8]
}

/// The response `NOT_FOUND` with its newline.
pub open spec fn resp_not_found() -> Seq<u8> {
    seq![78u8, 79u8, 84u8, 95u8, 70u8, 79u8, 85u8, 78u8, 68u8, 10u8]
}

/// The response `ERROR: Unknown command` with its newline.
pub open spec fn resp_error() -> Seq<u8> {
    seq![
        69u8, 82u8, 82u8, 79u8, 82u8, 58u8, 32u8, 85u8, 110u8, 107u8, 110u8, 111u8, 119u8, 110u8,
        32u8, 99u8, 111u8, 109u8, 109u8, 97u8, 110u8, 100u8, 10u8,
    ]
}

/// A well-shaped `SET key value ttl` command.
pub open spec fn is_set_cmd(toks: Seq<Seq<u8>>) -> bool {
    toks.len() == 4 && toks[0] == set_tok()
}

/// A well-shaped `GET key` command.
pub open spec fn is_get_cmd(toks: Seq<Seq<u8>>) -> bool {
    toks.len() == 2 && toks[0] == get_tok()
}

/// A well-shaped `DEL key` command.
pub open spec fn is_del_cmd(toks: Seq<Seq<u8>>) -> bool {
    toks.len() == 2 && toks[0] == del_tok()
}

/// A well-shaped `ALL` command.
pub open spec fn is_all_cmd(toks: Seq<Seq<u8>>) -> bool {
    toks.len() == 1 && toks[0] == all_tok()
}

/// The seconds named by a ttl token: a malformed or out-of-range token is
/// deliberately coerced to `0`, never rejected.
pub open spec fn ttl_arg(tok: Seq<u8>) -> u64 {
    match parse_u64_spec(tok) {
        Some(t) => t,
        None => 0,
    }
}

/// The byte strings of `keys` joined by commas.
pub open spec fn join_comma(keys: Seq<Seq<u8>>) -> Seq<u8>
    decreases keys.len(),
{
    if keys.len() == 0 {
        Seq::empty()
    } else if keys.len() == 1 {
        keys[0]
    } else {
        join_comma(keys.drop_last()) + seq![44u8] + keys.last()
    }
}

/// The store after one command, given as its token list.
pub open spec fn store_step(s: Seq<Rec>, toks: Seq<Seq<u8>>, now: u64) -> Seq<Rec> {
    if is_set_cmd(toks) {
        set_spec(s, toks[1], toks[2], Some(ttl_arg(toks[3])), now)
    } else if is_get_cmd(toks) {
        get_after(s, toks[1], now)
    } else if is_del_cmd(toks) {
        del_after(s, toks[1])
    } else if is_all_cmd(toks) {
        live_entries(s, now)
    } else {
        s
    }
}

/// The response line to one command, given as its token list.
pub open spec fn response_step(s: Seq<Rec>, toks: Seq<Seq<u8>>, now: u64) -> Seq<u8> {
    if is_set_cmd(toks) {
        resp_ok()
    } else if is_get_cmd(toks) {
        match get_result(s, toks[1], now) {
            Some(v) => v + seq![10u8],
            None => resp_null(),
        }
    } else if is_del_cmd(toks) {
        if has_key(s, toks[1]) {
            resp_deleted()
        } else {
            resp_not_found()
        }
    } else if is_all_cmd(toks) {
        join_comma(live_keys(s, now)) + seq![10u8]
    } else {
        resp_error()
    }
}

/// Unknown command stability: a line with no tokens, a known verb with the
/// wrong arity, or an unrecognized verb draws exactly the error response,
/// and the store does not change.
pub proof fn lemma_unknown_command(s: Seq<Rec>, toks: Seq<Seq<u8>>, now: u64)
    requires
        toks.len() == 0 || (toks[0] == set_tok() && toks.len() != 4) || (toks[0] == get_tok()
            && toks.len() != 2) || (toks[0] == del_tok() && toks.len() != 2) || (toks[0]
            == all_tok() && toks.len() != 1) || (toks[0] != set_tok() && toks[0] != get_tok()
            && toks[0] != del_tok() && toks[0] != all_tok()),
    ensures
        response_step(s, toks, now) == resp_error(),
        store_step(s, toks, now) == s,
{
    assert(set_tok()[0] == 83 && get_tok()[0] == 71 && del_tok()[0] == 68 && all_tok()[0] == 65);
    assert(set_tok() != get_tok() && set_tok() != del_tok() && set_tok() != all_tok());
    assert(get_tok() != del_tok() && get_tok() != all_tok());
    assert(del_tok() != all_tok());
}

/// Time-to-live correctness seen on the wire: after a well-formed
/// `SET k v ttl` command at instant `now0`, a `GET k` strictly before
/// `now0 + ttl` seconds answers the value, and at or past that instant
/// answers `NULL`.
pub proof fn lemma_ttl_on_the_wire(
    s: Seq<Rec>,
    k: Seq<u8>,
    v: Seq<u8>,
    ttl_tok: Seq<u8>,
    now0: u64,
    now: u64,
)
    requires
        distinct_keys(s),
    ensures
        ({
            let s2 = store_step(s, seq![set_tok(), k, v, ttl_tok], now0);
            let t = ttl_arg(ttl_tok);
            &&& (now < sat_add(now0, t) ==> response_step(s2, seq![get_tok(), k], now) == v + seq![
                10u8,
            ])
            &&& (now >= sat_add(now0, t) ==> response_step(s2, seq![get_tok(), k], now)
                == resp_null())
        }),
{
    let cmd = seq![set_tok(), k, v, ttl_tok];
    assert(is_set_cmd(cmd));
    assert(cmd[1] == k && cmd[2] == v && cmd[3] == ttl_tok);
    assert(is_get_cmd(seq![get_tok(), k]));
    lemma_ttl_correctness(s, k, v, ttl_arg(ttl_tok), now0, now);
}

/// Whether a token is the three given bytes.
fn tok3(t: &[u8], a: u8, b: u8, c: u8) -> (r: bool)
    ensures
        r == (t@ == seq![a, b, c]),
{
    if t.len() == 3 && t[0] == a && t[1] == b && t[2] == c {
        proof {
            assert(t@ =~= seq![a, b, c]);
        }
        true
    } else {
        proof {
            assert(seq![a, b, c].len() == 3);
            assert(seq![a, b, c][0] == a && seq![a, b, c][1] == b && seq![a, b, c][2] == c);
        }
        false
    }
}

/// Appends the bytes of `s` to `r`.
#[verifier::loop_isolation(false)]
fn append_bytes(r: &mut Vec<u8>, s: &[u8])
    ensures
        final(r)@ == old(r)@ + s@,
{
    let ghost r0 = r@;
    let mut i: usize = 0;
    while i < s.len()
        invariant
            i <= s.len(),
            r@ == r0 + s@.take(i as int),
        decreases s.len() - i,
    {
        r.push(s[i]);
        proof {
            assert(r0 + s@.take(i + 1 as int) =~= (r0 + s@.take(i as int)).push(s@[i as int]));
        }
        i += 1;
    }
    proof {
        assert(s@.take(s@.len() as int) =~= s@);
    }
}

/// Builds the comma-joined key listing.
#[verifier::loop_isolation(false)]
fn join_keys(keys: &Vec<Vec<u8>>) -> (r: Vec<u8>)
    ensures
        r@ == join_comma(keys@.map_values(|v: Vec<u8>| v@)),
{
    let ghost ks = keys@.map_values(|v: Vec<u8>| v@);
    let mut r: Vec<u8> = Vec::new();
    let mut i: usize = 0;
    proof {
        assert(ks.take(0) =~= Seq::<Seq<u8>>::empty());
    }
    while i < keys.len()
        invariant
            i <= keys.len(),
            ks == keys@.map_values(|v: Vec<u8>| v@),
            r@ == join_comma(ks.take(i as int)),
        decreases keys.len() - i,
    {
        proof {
            assert(ks.take(i + 1 as int).drop_last() =~= ks.take(i as int));
            assert(ks.take(i + 1 as int).last() == ks[i as int]);
            assert(ks[i as int] == keys@[i as int]@);
        }
        if i > 0 {
            r.push(44);
        }
        append_bytes(&mut r, keys[i].as_slice());
        proof {
            if i == 0 {
                assert(ks.take(1).len() == 1);
                assert(join_comma(ks.take(1)) == ks.take(1)[0]);
                assert(Seq::<u8>::empty() + ks[0] =~= ks[0]);
            } else {
                assert(ks.take(i + 1 as int).len() >= 2);
                assert(join_comma(ks.take(i + 1 as int)) == join_comma(ks.take(i as int)) + seq![
                    44u8,
                ] + ks[i as int]);
                assert(r@ == (join_comma(ks.take(i as int)).push(44u8)) + ks[i as int]);
                assert((join_comma(ks.take(i as int)).push(44u8)) + ks[i as int] =~= join_comma(
                    ks.take(i as int),
                ) + seq![44u8] + ks[i as int]);
            }
        }
        i += 1;
    }
    proof {
        assert(ks.take(ks.len() as int) =~= ks);
    }
    r
}

/// One command against the store: tokenizes the line, performs the store
/// operation it names at instant `now`, and returns the one response line,
/// newline included. A line that names no valid command changes nothing
/// and draws the error response.
pub fn handle_request(store: &mut KeyValueStore, line: &[u8], now: u64) -> (r: Vec<u8>)
    requires
        old(store).wf(),
    ensures
        final(store).wf(),
        final(store)@ == store_step(old(store)@, tokens(line@), now),
        r@ == response_step(old(store)@, tokens(line@), now),
{
    let toks = tokenize(line);
    let ghost tv = toks@.map_values(|t: Vec<u8>| t@);
    proof {
        assert(forall|j: int| 0 <= j < toks@.len() ==> tv[j] == #[trigger] toks@[j]@);
    }
    if toks.len() == 4 && tok3(toks[0].as_slice(), 83, 69, 84) {
        proof {
            assert(is_set_cmd(tv));
        }
        let key = clone_bytes(toks[1].as_slice());
        let value = clone_bytes(toks[2].as_slice());
        let ttl = match parse_u64(toks[3].as_slice()) {
            Some(t) => t,
            None => 0,
        };
        proof {
            assert(ttl == ttl_arg(tv[3]));
        }
        store.set(key, value, Some(ttl), now);
        let mut r: Vec<u8> = Vec::new();
        r.push(79);
        r.push(75);
        r.push(10);
        proof {
            assert(r@ =~= resp_ok());
        }
        r
    } else if toks.len() == 2 && tok3(toks[0].as_slice(), 71, 69, 84) {
        proof {
            assert(is_get_cmd(tv));
        }
        match store.get(toks[1].as_slice(), now) {
            Some(v) => {
                let mut r = v;
                r.push(10);
                proof {
                    assert(r@ =~= get_result(old(store)@, tv[1], now).unwrap() + seq![10u8]);
                }
                r
            },
            None => {
                let mut r: Vec<u8> = Vec::new();
                r.push(78);
                r.push(85);
                r.push(76);
                r.push(76);
                r.push(10);
                proof {
                    assert(r@ =~= resp_null());
                }
                r
            },
        }
    } else if toks.len() == 2 && tok3(toks[0].as_slice(), 68, 69, 76) {
        proof {
            assert(is_del_cmd(tv));
        }
        if store.delete(toks[1].as_slice()) {
            let mut r: Vec<u8> = Vec::new();
            r.push(68);
            r.push(69);
            r.push(76);
            r.push(69);
            r.push(84);
            r.push(69);
            r.push(68);
            r.push(10);
            proof {
                assert(r@ =~= resp_deleted());
            }
            r
        } else {
            let mut r: Vec<u8> = Vec::new();
            r.push(78);
            r.push(79);
            r.push(84);
            r.push(95);
            r.push(70);
            r.push(79);
            r.push(85);
            r.push(78);
            r.push(68);
            r.push(10);
            proof {
                assert(r@ =~= resp_not_found());
            }
            r
        }
    } else if toks.len() == 1 && tok3(toks[0].as_slice(), 65, 76, 76) {
        proof {
            assert(is_all_cmd(tv));
        }
        let keys = store.get_all(now);
        let mut r = join_keys(&keys);
        r.push(10);
        proof {
            assert(r@ =~= join_comma(live_keys(old(store)@, now)) + seq![10u8]);
        }
        r
    } else {
        proof {
            assert(!is_set_cmd(tv) && !is_get_cmd(tv) && !is_del_cmd(tv) && !is_all_cmd(tv));
        }
        let mut r: Vec<u8> = Vec::new();
        r.push(69);
        r.push(82);
        r.push(82);
        r.push(79);
        r.push(82);
        r.push(58);
        r.push(32);
        r.push(85);
        r.push(110);
        r.push(107);
        r.push(110);
        r.push(111);
        r.push(119);
        r.push(110);
        r.push(32);
        r.push(99);
        r.push(111);
        r.push(109);
        r.push(109);
        r.push(97);
        r.push(110);
        r.push(100);
        r.push(10);
        proof {
            assert(r@ =~= resp_error());
        }
        r
    }
}

} // verus!

