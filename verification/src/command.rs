//! The interactive shell's command grammar, over bytes: optional leading
//! whitespace, an upper-case keyword, then whitespace-separated arguments.
//! Trailing bytes after a successful match are ignored.
//!
//! The grammar is specified by `parsed_as` and `no_parse`: together they pin
//! `parse` down exactly — whatever comes back is the unique command the
//! input spells, and a refusal means no command shape matches.

use vstd::prelude::*;

verus! {

/// One shell command, with arguments as byte strings.
pub enum Command {
    Get { hash_key: Vec<u8>, tree_key: Vec<u8> },
    Put { hash_key: Vec<u8>, tree_key: Vec<u8>, data: Vec<u8> },
    Contains { hash_key: Vec<u8>, tree_key: Vec<u8> },
    Delete { hash_key: Vec<u8>, tree_key: Vec<u8> },
    Range { hash_key: Vec<u8>, tree_start: Vec<u8>, tree_end: Vec<u8> },
    Succ { hash_key: Vec<u8>, tree_key: Vec<u8> },
    Pred { hash_key: Vec<u8>, tree_key: Vec<u8> },
    Count {},
    Show {},
    Save {},
    Load {},
    Exit {},
}

/// ASCII whitespace, the token separator.
pub open spec fn is_ws(b: u8) -> bool {
    b == 9 || b == 10 || b == 11 || b == 12 || b == 13 || b == 32
}

/// The end of the whitespace run starting at `i`.
pub open spec fn ws_end(s: Seq<u8>, i: int) -> int
    decreases s.len() - i,
{
    if i < 0 || i >= s.len() || !is_ws(s[i]) {
        i
    } else {
        ws_end(s, i + 1)
    }
}

/// The end of the token starting at `i`: the next whitespace or the end.
pub open spec fn word_end(s: Seq<u8>, i: int) -> int
    decreases s.len() - i,
{
    if i < 0 || i >= s.len() || is_ws(s[i]) {
        i
    } else {
        word_end(s, i + 1)
    }
}

/// The keyword occurs at position `i`.
pub open spec fn has_kw(s: Seq<u8>, i: int, kw: Seq<u8>) -> bool {
    0 <= i && i + kw.len() <= s.len() && s.subrange(i, i + kw.len()) == kw
}

/// After position `e`: at least one separator, a token, at least one
/// separator, a token. Anything after the second token is ignored.
pub open spec fn two_args(s: Seq<u8>, e: int) -> Option<(Seq<u8>, Seq<u8>)> {
    let t1 = ws_end(s, e);
    if t1 == e {
        None
    } else {
        let w1 = word_end(s, t1);
        let t2 = ws_end(s, w1);
        if t2 == w1 {
            None
        } else {
            let w2 = word_end(s, t2);
            Some((s.subrange(t1, w1), s.subrange(t2, w2)))
        }
    }
}

/// After position `e`: three separated tokens, as in `two_args`.
pub open spec fn three_args(s: Seq<u8>, e: int) -> Option<(Seq<u8>, Seq<u8>, Seq<u8>)> {
    match two_args(s, e) {
        None => None,
        Some(p) => {
            let t1 = ws_end(s, e);
            let w1 = word_end(s, t1);
            let t2 = ws_end(s, w1);
            let w2 = word_end(s, t2);
            let t3 = ws_end(s, w2);
            if t3 == w2 {
                None
            } else {
                let w3 = word_end(s, t3);
                Some((p.0, p.1, s.subrange(t3, w3)))
            }
        }
    }
}

/// The keyword GET.
pub open spec fn kw_get() -> Seq<u8> {
    seq![71u8, 69u8, 84u8]
}

/// The keyword PUT.
pub open spec fn kw_put() -> Seq<u8> {
    seq![80u8, 85u8, 84u8]
}

/// The keyword CONTAINS.
pub open spec fn kw_contains() -> Seq<u8> {
    seq![67u8, 79u8, 78u8, 84u8, 65u8, 73u8, 78u8, 83u8]
}

/// The keyword DELETE.
pub open spec fn kw_delete() -> Seq<u8> {
    seq![68u8, 69u8, 76u8, 69u8, 84u8, 69u8]
}

/// The keyword RANGE.
pub open spec fn kw_range() -> Seq<u8> {
    seq![82u8, 65u8, 78u8, 71u8, 69u8]
}

/// The keyword COUNT.
pub open spec fn kw_count() -> Seq<u8> {
    seq![67u8, 79u8, 85u8, 78u8, 84u8]
}

/// The keyword SHOW.
pub open spec fn kw_show() -> Seq<u8> {
    seq![83u8, 72u8, 79u8, 87u8]
}

/// The keyword SAVE.
pub open spec fn kw_save() -> Seq<u8> {
    seq![83u8, 65u8, 86u8, 69u8]
}

/// The keyword LOAD.
pub open spec fn kw_load() -> Seq<u8> {
    seq![76u8, 79u8, 65u8, 68u8]
}

/// The keyword EXIT.
pub open spec fn kw_exit() -> Seq<u8> {
    seq![69u8, 88u8, 73u8, 84u8]
}

/// The input spells exactly this command: after optional leading
/// whitespace, its keyword, then its arguments. The shell grammar never
/// produces the successor and predecessor commands.
pub open spec fn parsed_as(s: Seq<u8>, c: Command) -> bool {
    let b = ws_end(s, 0);
    match c {
        Command::Get { hash_key, tree_key } => has_kw(s, b, kw_get()) && two_args(
            s,
            b + kw_get().len(),
        ) == Some((hash_key@, tree_key@)),
        Command::Put { hash_key, tree_key, data } => has_kw(s, b, kw_put()) && three_args(
            s,
            b + kw_put().len(),
        ) == Some((hash_key@, tree_key@, data@)),
        Command::Contains { hash_key, tree_key } => has_kw(s, b, kw_contains()) && two_args(
            s,
            b + kw_contains().len(),
        ) == Some((hash_key@, tree_key@)),
        Command::Delete { hash_key, tree_key } => has_kw(s, b, kw_delete()) && two_args(
            s,
            b + kw_delete().len(),
        ) == Some((hash_key@, tree_key@)),
        Command::Range { hash_key, tree_start, tree_end } => has_kw(s, b, kw_range())
            && three_args(s, b + kw_range().len()) == Some((hash_key@, tree_start@, tree_end@)),
        Command::Succ { .. } => false,
        Command::Pred { .. } => false,
        Command::Count {  } => has_kw(s, b, kw_count()),
        Command::Show {  } => has_kw(s, b, kw_show()),
        Command::Save {  } => has_kw(s, b, kw_save()),
        Command::Load {  } => has_kw(s, b, kw_load()),
        Command::Exit {  } => has_kw(s, b, kw_exit()),
    }
}

/// No command shape matches the input.
pub open spec fn no_parse(s: Seq<u8>) -> bool {
    let b = ws_end(s, 0);
    &&& (has_kw(s, b, kw_get()) ==> two_args(s, b + kw_get().len()) is None)
    &&& (has_kw(s, b, kw_put()) ==> three_args(s, b + kw_put().len()) is None)
    &&& (has_kw(s, b, kw_contains()) ==> two_args(s, b + kw_contains().len()) is None)
    &&& (has_kw(s, b, kw_delete()) ==> two_args(s, b + kw_delete().len()) is None)
    &&& (has_kw(s, b, kw_range()) ==> three_args(s, b + kw_range().len()) is None)
    &&& !has_kw(s, b, kw_count())
    &&& !has_kw(s, b, kw_show())
    &&& !has_kw(s, b, kw_save())
    &&& !has_kw(s, b, kw_load())
    &&& !has_kw(s, b, kw_exit())
}

/// Keywords that differ at some position cannot both occur at one position.
proof fn lemma_kw_distinct(s: Seq<u8>, b: int, k1: Seq<u8>, k2: Seq<u8>, d: int)
    requires
        0 <= d < k1.len(),
        d < k2.len(),
        k1[d] != k2[d],
    ensures
        !(has_kw(s, b, k1) && has_kw(s, b, k2)),
{
    if has_kw(s, b, k1) && has_kw(s, b, k2) {
        assert(s.subrange(b, b + k1.len() as int)[d] == s[b + d]);
        assert(s.subrange(b, b + k2.len() as int)[d] == s[b + d]);
    }
}

/// Whether the byte is a token separator.
fn ws_byte(b: u8) -> (r: bool)
    ensures
        r == is_ws(b),
{
    b == 9 || b == 10 || b == 11 || b == 12 || b == 13 || b == 32
}

/// Advances past the whitespace run starting at `from`.
#[verifier::loop_isolation(false)]
fn skip_ws(input: &[u8], from: usize) -> (r: usize)
    requires
        from <= input@.len(),
    ensures
        r == ws_end(input@, from as int),
        from <= r <= input@.len(),
{
    let ghost s = input@;
    let n = input.len();
    let mut i = from;
    while i < n
        invariant
            from <= i <= n,
            n == s.len(),
            s == input@,
            ws_end(s, from as int) == ws_end(s, i as int),
        decreases n - i,
    {
        if !ws_byte(input[i]) {
            return i;
        }
        i += 1;
    }
    i
}

/// Advances past the token starting at `from`.
#[verifier::loop_isolation(false)]
fn skip_word(input: &[u8], from: usize) -> (r: usize)
    requires
        from <= input@.len(),
    ensures
        r == word_end(input@, from as int),
        from <= r <= input@.len(),
{
    let ghost s = input@;
    let n = input.len();
    let mut i = from;
    while i < n
        invariant
            from <= i <= n,
            n == s.len(),
            s == input@,
            word_end(s, from as int) == word_end(s, i as int),
        decreases n - i,
    {
        if ws_byte(input[i]) {
            return i;
        }
        i += 1;
    }
    i
}

/// Whether the keyword occurs at `from`.
#[verifier::loop_isolation(false)]
fn match_kw(input: &[u8], from: usize, kw: &Vec<u8>) -> (r: bool)
    requires
        from <= input@.len(),
    ensures
        r == has_kw(input@, from as int, kw@),
{
    let n = kw.len();
    if input.len() - from < n {
        return false;
    }
    let mut i: usize = 0;
    while i < n
        invariant
            0 <= i <= n,
            n == kw@.len(),
            from + n <= input@.len(),
            forall|j: int| 0 <= j < i ==> input@[from + j] == kw@[j],
        decreases n - i,
    {
        if input[from + i] != kw[i] {
            proof {
                assert(input@.subrange(from as int, from + n) != kw@) by {
                    assert(input@.subrange(from as int, from + n)[i as int] == input@[from + i]);
                }
            }
            return false;
        }
        i += 1;
    }
    proof {
        assert(input@.subrange(from as int, from + n) =~= kw@);
    }
    true
}

/// Copies the bytes between two positions.
fn copy_range(input: &[u8], a: usize, b: usize) -> (r: Vec<u8>)
    requires
        a <= b <= input@.len(),
    ensures
        r@ == input@.subrange(a as int, b as int),
{
    let mut r: Vec<u8> = Vec::new();
    let mut i = a;
    while i < b
        invariant
            a <= i <= b <= input@.len(),
            r@ == input@.subrange(a as int, i as int),
        decreases b - i,
    {
        r.push(input[i]);
        proof {
            assert(input@.subrange(a as int, i + 1) =~= input@.subrange(a as int, i as int).push(
                input@[i as int],
            ));
        }
        i += 1;
    }
    r
}

/// Reads two separated tokens after position `e`.
fn parse_two(input: &[u8], e: usize) -> (r: Option<(Vec<u8>, Vec<u8>)>)
    requires
        e <= input@.len(),
    ensures
        match r {
            Some(p) => two_args(input@, e as int) == Some((p.0@, p.1@)),
            None => two_args(input@, e as int) is None,
        },
{
    let t1 = skip_ws(input, e);
    if t1 == e {
        return None;
    }
    let w1 = skip_word(input, t1);
    let t2 = skip_ws(input, w1);
    if t2 == w1 {
        return None;
    }
    let w2 = skip_word(input, t2);
    Some((copy_range(input, t1, w1), copy_range(input, t2, w2)))
}

/// Reads three separated tokens after position `e`.
fn parse_three(input: &[u8], e: usize) -> (r: Option<(Vec<u8>, Vec<u8>, Vec<u8>)>)
    requires
        e <= input@.len(),
    ensures
        match r {
            Some(p) => three_args(input@, e as int) == Some((p.0@, p.1@, p.2@)),
            None => three_args(input@, e as int) is None,
        },
{
    let t1 = skip_ws(input, e);
    if t1 == e {
        return None;
    }
    let w1 = skip_word(input, t1);
    let t2 = skip_ws(input, w1);
    if t2 == w1 {
        return None;
    }
    let w2 = skip_word(input, t2);
    let t3 = skip_ws(input, w2);
    if t3 == w2 {
        return None;
    }
    let w3 = skip_word(input, t3);
    Some((copy_range(input, t1, w1), copy_range(input, t2, w2), copy_range(input, t3, w3)))
}

impl Command {
    /// Parses one line of shell input: whatever comes back is exactly the
    /// command the line spells, and a refusal means no command shape
    /// matches.
    pub fn parse(input: &[u8]) -> (r: Option<Command>)
        ensures
            match r {
                Some(c) => parsed_as(input@, c),
                None => no_parse(input@),
            },
    {
        let _total = input.len();
        let k_get: Vec<u8> = vec![71, 69, 84];
        let k_put: Vec<u8> = vec![80, 85, 84];
        let k_contains: Vec<u8> = vec![67, 79, 78, 84, 65, 73, 78, 83];
        let k_delete: Vec<u8> = vec![68, 69, 76, 69, 84, 69];
        let k_range: Vec<u8> = vec![82, 65, 78, 71, 69];
        let k_count: Vec<u8> = vec![67, 79, 85, 78, 84];
        let k_show: Vec<u8> = vec![83, 72, 79, 87];
        let k_save: Vec<u8> = vec![83, 65, 86, 69];
        let k_load: Vec<u8> = vec![76, 79, 65, 68];
        let k_exit: Vec<u8> = vec![69, 88, 73, 84];
        proof {
            assert(k_get@ =~= kw_get());
            assert(k_put@ =~= kw_put());
            assert(k_contains@ =~= kw_contains());
            assert(k_delete@ =~= kw_delete());
            assert(k_range@ =~= kw_range());
            assert(k_count@ =~= kw_count());
            assert(k_show@ =~= kw_show());
            assert(k_save@ =~= kw_save());
            assert(k_load@ =~= kw_load());
            assert(k_exit@ =~= kw_exit());
        }
        let b = skip_ws(input, 0);
        if match_kw(input, b, &k_get) {
            match parse_two(input, b + 3) {
                Some(p) => Some(Command::Get { hash_key: p.0, tree_key: p.1 }),
                None => {
                    proof {
                        lemma_kw_distinct(input@, b as int, kw_get(), kw_put(), 0);
                        lemma_kw_distinct(input@, b as int, kw_get(), kw_contains(), 0);
                        lemma_kw_distinct(input@, b as int, kw_get(), kw_delete(), 0);
                        lemma_kw_distinct(input@, b as int, kw_get(), kw_range(), 0);
                        lemma_kw_distinct(input@, b as int, kw_get(), kw_count(), 0);
                        lemma_kw_distinct(input@, b as int, kw_get(), kw_show(), 0);
                        lemma_kw_distinct(input@, b as int, kw_get(), kw_save(), 0);
                        lemma_kw_distinct(input@, b as int, kw_get(), kw_load(), 0);
                        lemma_kw_distinct(input@, b as int, kw_get(), kw_exit(), 0);
                    }
                    None
                }
            }
        } else if match_kw(input, b, &k_put) {
            match parse_three(input, b + 3) {
                Some(p) => Some(Command::Put { hash_key: p.0, tree_key: p.1, data: p.2 }),
                None => {
                    proof {
                        lemma_kw_distinct(input@, b as int, kw_put(), kw_get(), 0);
                        lemma_kw_distinct(input@, b as int, kw_put(), kw_contains(), 0);
                        lemma_kw_distinct(input@, b as int, kw_put(), kw_delete(), 0);
                        lemma_kw_distinct(input@, b as int, kw_put(), kw_range(), 0);
                        lemma_kw_distinct(input@, b as int, kw_put(), kw_count(), 0);
                        lemma_kw_distinct(input@, b as int, kw_put(), kw_show(), 0);
                        lemma_kw_distinct(input@, b as int, kw_put(), kw_save(), 0);
                        lemma_kw_distinct(input@, b as int, kw_put(), kw_load(), 0);
                        lemma_kw_distinct(input@, b as int, kw_put(), kw_exit(), 0);
                    }
                    None
                }
            }
        } else if match_kw(input, b, &k_contains) {
            match parse_two(input, b + 8) {
                Some(p) => Some(Command::Contains { hash_key: p.0, tree_key: p.1 }),
                None => {
                    proof {
                        lemma_kw_distinct(input@, b as int, kw_contains(), kw_get(), 0);
                        lemma_kw_distinct(input@, b as int, kw_contains(), kw_put(), 0);
                        lemma_kw_distinct(input@, b as int, kw_contains(), kw_delete(), 0);
                        lemma_kw_distinct(input@, b as int, kw_contains(), kw_range(), 0);
                        lemma_kw_distinct(input@, b as int, kw_contains(), kw_count(), 2);
                        lemma_kw_distinct(input@, b as int, kw_contains(), kw_show(), 0);
                        lemma_kw_distinct(input@, b as int, kw_contains(), kw_save(), 0);
                        lemma_kw_distinct(input@, b as int, kw_contains(), kw_load(), 0);
                        lemma_kw_distinct(input@, b as int, kw_contains(), kw_exit(), 0);
                    }
                    None
                }
            }
        } else if match_kw(input, b, &k_delete) {
            match parse_two(input, b + 6) {
                Some(p) => Some(Command::Delete { hash_key: p.0, tree_key: p.1 }),
                None => {
                    proof {
                        lemma_kw_distinct(input@, b as int, kw_delete(), kw_get(), 0);
                        lemma_kw_distinct(input@, b as int, kw_delete(), kw_put(), 0);
                        lemma_kw_distinct(input@, b as int, kw_delete(), kw_contains(), 0);
                        lemma_kw_distinct(input@, b as int, kw_delete(), kw_range(), 0);
                        lemma_kw_distinct(input@, b as int, kw_delete(), kw_count(), 0);
                        lemma_kw_distinct(input@, b as int, kw_delete(), kw_show(), 0);
                        lemma_kw_distinct(input@, b as int, kw_delete(), kw_save(), 0);
                        lemma_kw_distinct(input@, b as int, kw_delete(), kw_load(), 0);
                        lemma_kw_distinct(input@, b as int, kw_delete(), kw_exit(), 0);
                    }
                    None
                }
            }
        } else if match_kw(input, b, &k_range) {
            match parse_three(input, b + 5) {
                Some(p) => Some(
                    Command::Range { hash_key: p.0, tree_start: p.1, tree_end: p.2 },
                ),
                None => {
                    proof {
                        lemma_kw_distinct(input@, b as int, kw_range(), kw_get(), 0);
                        lemma_kw_distinct(input@, b as int, kw_range(), kw_put(), 0);
                        lemma_kw_distinct(input@, b as int, kw_range(), kw_contains(), 0);
                        lemma_kw_distinct(input@, b as int, kw_range(), kw_delete(), 0);
                        lemma_kw_distinct(input@, b as int, kw_range(), kw_count(), 0);
                        lemma_kw_distinct(input@, b as int, kw_range(), kw_show(), 0);
                        lemma_kw_distinct(input@, b as int, kw_range(), kw_save(), 0);
                        lemma_kw_distinct(input@, b as int, kw_range(), kw_load(), 0);
                        lemma_kw_distinct(input@, b as int, kw_range(), kw_exit(), 0);
                    }
                    None
                }
            }
        } else if match_kw(input, b, &k_count) {
            Some(Command::Count {  })
        } else if match_kw(input, b, &k_show) {
            Some(Command::Show {  })
        } else if match_kw(input, b, &k_save) {
            Some(Command::Save {  })
        } else if match_kw(input, b, &k_load) {
            Some(Command::Load {  })
        } else if match_kw(input, b, &k_exit) {
            Some(Command::Exit {  })
        } else {
            None
        }
    }
}

} // verus!
