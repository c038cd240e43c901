//! Laws of the `.env` registration: what `upsert_env` writes is what
//! `parse_env` and `FlashConfig::from_env` read back.
use vstd::prelude::*;
use crate::flash::{
    config_of_env, env_assignment, env_entries, env_entries_from, env_line_entry,
    env_line_skipped, env_lookup, env_value_ok, env_with_value, half_env_key, line_has_key,
    lines_with_value, serial_of, some_line_has_key, spec_other_half, two_lines_have_key,
    unquoted, Half, LEFT_SERIAL_KEY, RIGHT_SERIAL_KEY,
};
use crate::text::{
    contains_seq, find, is_ws, join_lines, lemma_find, lemma_find_first, lemma_matches_char,
    lemma_trim_end_index, lemma_trim_start_index, lines, lines_from, matches_at, split_once,
    strip_cr, trim, trim_end, trim_leading_newlines, trim_start,
};

verus! {

// ---------------------------------------------------------------------------
// Line splitting undoes joining
// ---------------------------------------------------------------------------

pub open spec fn no_newline(s: Seq<char>) -> bool {
    forall|i: int| 0 <= i < s.len() ==> s[i] != '\n'
}

pub open spec fn lines_without_newline(ls: Seq<Seq<char>>) -> bool {
    forall|i: int| 0 <= i < ls.len() ==> no_newline(#[trigger] ls[i])
}

/// `ls` without its leading empty lines.
pub open spec fn drop_leading_empty(ls: Seq<Seq<char>>) -> Seq<Seq<char>>
    decreases ls.len(),
{
    if ls.len() > 0 && ls[0].len() == 0 {
        drop_leading_empty(ls.drop_first())
    } else {
        ls
    }
}

proof fn lemma_lines_from_segment(c: Seq<char>, x: Seq<char>, y: Seq<char>)
    requires
        no_newline(x),
    ensures
        lines_from(c, x + seq!['\n'] + y) == seq![strip_cr(c + x)] + lines_from(Seq::empty(), y),
    decreases x.len(),
{
    let s = x + seq!['\n'] + y;
    if x.len() == 0 {
        assert(s =~= seq!['\n'] + y);
        assert(s.drop_first() =~= y);
        assert(c + x =~= c);
    } else {
        assert(s[0] == x[0]);
        assert(s.drop_first() =~= x.drop_first() + seq!['\n'] + y);
        assert(c.push(x[0]) + x.drop_first() =~= c + x);
        lemma_lines_from_segment(c.push(x[0]), x.drop_first(), y);
    }
}

proof fn lemma_join_front(ls: Seq<Seq<char>>)
    requires
        ls.len() >= 2,
    ensures
        join_lines(ls) == ls[0] + seq!['\n'] + join_lines(ls.drop_first()),
    decreases ls.len(),
{
    let dl = ls.drop_last();
    let df = ls.drop_first();
    assert(dl[0] == ls[0]);
    assert(df.last() == ls.last());
    if ls.len() == 2 {
        assert(dl.len() == 1);
        assert(df.len() == 1);
        assert(join_lines(df) == df[0]);
        assert(join_lines(dl) == dl[0]);
        assert(df[0] == ls[1]);
        assert(ls.last() == ls[1]);
    } else {
        lemma_join_front(dl);
        assert(dl.drop_first() =~= df.drop_last());
        assert(join_lines(df) == join_lines(df.drop_last()) + seq!['\n'] + df.last());
        assert(join_lines(ls) =~= ls[0] + seq!['\n'] + join_lines(df));
    }
}

proof fn lemma_join_no_newline_first(ls: Seq<Seq<char>>)
    requires
        ls.len() >= 1,
        ls[0].len() > 0,
    ensures
        join_lines(ls).len() > 0 && join_lines(ls)[0] == ls[0][0],
{
    if ls.len() >= 2 {
        lemma_join_front(ls);
    }
}

/// Splitting lines joined with newlines and ended by one gives the lines back,
/// each without a final carriage return.
pub proof fn lemma_lines_of_join(ls: Seq<Seq<char>>)
    requires
        ls.len() >= 1,
        lines_without_newline(ls),
    ensures
        lines(join_lines(ls) + seq!['\n']) == ls.map_values(|l: Seq<char>| strip_cr(l)),
    decreases ls.len(),
{
    if ls.len() == 1 {
        assert(join_lines(ls) == ls[0]);
        lemma_lines_from_segment(Seq::empty(), ls[0], Seq::empty());
        assert(ls[0] + seq!['\n'] + Seq::<char>::empty() =~= ls[0] + seq!['\n']);
        assert(Seq::<char>::empty() + ls[0] =~= ls[0]);
        assert(ls.map_values(|l: Seq<char>| strip_cr(l)) =~= seq![strip_cr(ls[0])]);
        assert(lines_from(Seq::empty(), Seq::empty()) =~= Seq::<Seq<char>>::empty());
    } else {
        let rest = ls.drop_first();
        assert(lines_without_newline(rest)) by {
            assert forall|i: int| 0 <= i < rest.len() implies no_newline(#[trigger] rest[i]) by {
                assert(rest[i] == ls[i + 1]);
            }
        }
        lemma_join_front(ls);
        lemma_lines_of_join(rest);
        assert(no_newline(ls[0]));
        lemma_lines_from_segment(Seq::empty(), ls[0], join_lines(rest) + seq!['\n']);
        assert(ls[0] + seq!['\n'] + (join_lines(rest) + seq!['\n']) =~= join_lines(ls) + seq!['\n']);
        assert(Seq::<char>::empty() + ls[0] =~= ls[0]);
        assert(ls.map_values(|l: Seq<char>| strip_cr(l)) =~= seq![strip_cr(ls[0])]
            + rest.map_values(|l: Seq<char>| strip_cr(l)));
    }
}

/// Dropping the leading newlines of joined lines drops their leading empty lines.
pub proof fn lemma_trim_join(ls: Seq<Seq<char>>)
    requires
        lines_without_newline(ls),
    ensures
        trim_leading_newlines(join_lines(ls)) == join_lines(drop_leading_empty(ls)),
        lines_without_newline(drop_leading_empty(ls)),
        drop_leading_empty(ls).len() > 0 ==> drop_leading_empty(ls)[0].len() > 0,
    decreases ls.len(),
{
    if ls.len() == 0 {
    } else if ls[0].len() == 0 {
        let rest = ls.drop_first();
        assert(lines_without_newline(rest)) by {
            assert forall|i: int| 0 <= i < rest.len() implies no_newline(#[trigger] rest[i]) by {
                assert(rest[i] == ls[i + 1]);
            }
        }
        lemma_trim_join(rest);
        if ls.len() == 1 {
            assert(join_lines(ls) == ls[0]);
            assert(join_lines(ls).len() == 0);
            assert(rest.len() == 0);
        } else {
            lemma_join_front(ls);
            assert(join_lines(ls) =~= seq!['\n'] + join_lines(rest));
            assert((seq!['\n'] + join_lines(rest)).drop_first() =~= join_lines(rest));
        }
    } else {
        lemma_join_no_newline_first(ls);
        assert(no_newline(ls[0]));
    }
}

// ---------------------------------------------------------------------------
// Entries as a function of the lines
// ---------------------------------------------------------------------------

/// Every line is skipped or holds an entry.
pub open spec fn env_lines_ok(ls: Seq<Seq<char>>) -> bool {
    forall|i: int| 0 <= i < ls.len() ==> env_line_skipped(#[trigger] ls[i]) || env_line_entry(ls[i]) is Some
}

/// The entries of the lines that carry one, in order.
pub open spec fn entries_of(ls: Seq<Seq<char>>) -> Seq<(Seq<char>, Seq<char>)>
    decreases ls.len(),
{
    if ls.len() == 0 {
        Seq::empty()
    } else if env_line_skipped(ls[0]) {
        entries_of(ls.drop_first())
    } else {
        seq![env_line_entry(ls[0])->0] + entries_of(ls.drop_first())
    }
}

proof fn lemma_env_lines_ok_rest(ls: Seq<Seq<char>>)
    requires
        ls.len() > 0,
    ensures
        env_lines_ok(ls) <==> (env_line_skipped(ls[0]) || env_line_entry(ls[0]) is Some)
            && env_lines_ok(ls.drop_first()),
{
    let rest = ls.drop_first();
    if env_lines_ok(ls) {
        assert forall|i: int| 0 <= i < rest.len() implies env_line_skipped(#[trigger] rest[i])
            || env_line_entry(rest[i]) is Some by {
            assert(rest[i] == ls[i + 1]);
        }
    }
    if (env_line_skipped(ls[0]) || env_line_entry(ls[0]) is Some) && env_lines_ok(rest) {
        assert forall|i: int| 0 <= i < ls.len() implies env_line_skipped(#[trigger] ls[i])
            || env_line_entry(ls[i]) is Some by {
            if i > 0 {
                assert(ls[i] == rest[i - 1]);
            }
        }
    }
}

/// The entries of a `.env` text are those of its lines, and reading
/// succeeds exactly when every line is skipped or holds an entry.
pub proof fn lemma_env_entries_of(ls: Seq<Seq<char>>, first: nat)
    ensures
        env_entries_from(ls, first) is Ok <==> env_lines_ok(ls),
        env_lines_ok(ls) ==> env_entries_from(ls, first) == Ok::<_, nat>(entries_of(ls)),
    decreases ls.len(),
{
    if ls.len() > 0 {
        lemma_env_entries_of(ls.drop_first(), first + 1);
        lemma_env_lines_ok_rest(ls);
    }
}

proof fn lemma_trim_start_ws_suffix(s: Seq<char>)
    requires
        s.len() > 0,
        is_ws(s.last()),
    ensures
        trim_start(s.drop_last()) == (if trim_start(s).len() == 0 {
            trim_start(s)
        } else {
            trim_start(s).drop_last()
        }),
    decreases s.len(),
{
    if s.len() == 1 {
        assert(s.drop_last().len() == 0);
        assert(s[0] == s.last());
        assert(s.drop_first().len() == 0);
        assert(trim_start(s) == trim_start(s.drop_first()));
    } else if is_ws(s[0]) {
        let t = s.drop_first();
        assert(t.last() == s.last());
        lemma_trim_start_ws_suffix(t);
        assert(s.drop_last().drop_first() =~= t.drop_last());
        assert(s.drop_last()[0] == s[0]);
    } else {
        assert(s.drop_last()[0] == s[0]);
    }
}

proof fn lemma_trim_end_of_ws_drop(s: Seq<char>)
    requires
        s.len() > 0,
        is_ws(s.last()),
    ensures
        trim_end(s) == trim_end(s.drop_last()),
{
}

/// A final carriage return does not change what a line trims to.
proof fn lemma_trim_strip_cr(l: Seq<char>)
    ensures
        trim(strip_cr(l)) == trim(l),
{
    if l.len() > 0 && l.last() == '\r' {
        lemma_trim_start_ws_suffix(l);
        let t = trim_start(l);
        if t.len() > 0 {
            lemma_trim_start_last(l);
            assert(t.last() == l.last());
            lemma_trim_end_of_ws_drop(t);
        }
    }
}

proof fn lemma_trim_start_last(s: Seq<char>)
    requires
        trim_start(s).len() > 0,
    ensures
        trim_start(s).last() == s.last(),
    decreases s.len(),
{
    if s.len() > 0 && is_ws(s[0]) {
        lemma_trim_start_last(s.drop_first());
    }
}

/// Removing final carriage returns keeps the entries of the lines.
pub proof fn lemma_entries_strip_cr(ls: Seq<Seq<char>>)
    ensures
        entries_of(ls.map_values(|l: Seq<char>| strip_cr(l))) == entries_of(ls),
        env_lines_ok(ls.map_values(|l: Seq<char>| strip_cr(l))) == env_lines_ok(ls),
    decreases ls.len(),
{
    let m = ls.map_values(|l: Seq<char>| strip_cr(l));
    if ls.len() > 0 {
        lemma_entries_strip_cr(ls.drop_first());
        assert(m.drop_first() =~= ls.drop_first().map_values(|l: Seq<char>| strip_cr(l)));
        lemma_trim_strip_cr(ls[0]);
        assert(m[0] == strip_cr(ls[0]));
        lemma_env_lines_ok_rest(ls);
        lemma_env_lines_ok_rest(m);
    }
}

/// Leading empty lines carry no entry.
pub proof fn lemma_entries_drop_leading_empty(ls: Seq<Seq<char>>)
    ensures
        entries_of(drop_leading_empty(ls)) == entries_of(ls),
        env_lines_ok(drop_leading_empty(ls)) == env_lines_ok(ls),
    decreases ls.len(),
{
    if ls.len() > 0 && ls[0].len() == 0 {
        lemma_entries_drop_leading_empty(ls.drop_first());
        lemma_empty_trim(ls[0]);
        lemma_env_lines_ok_rest(ls);
    }
}

proof fn lemma_empty_trim(l: Seq<char>)
    requires
        l.len() == 0,
    ensures
        env_line_skipped(l),
{
    assert(trim_start(l) == l);
    assert(trim(l) == l);
}

proof fn lemma_entries_push(ls: Seq<Seq<char>>, l: Seq<char>)
    ensures
        entries_of(ls.push(l)) == entries_of(ls) + (if env_line_skipped(l) {
            Seq::empty()
        } else {
            seq![env_line_entry(l)->0]
        }),
        env_lines_ok(ls.push(l)) == (env_lines_ok(ls) && (env_line_skipped(l) || env_line_entry(
            l,
        ) is Some)),
    decreases ls.len(),
{
    let p = ls.push(l);
    if ls.len() == 0 {
        assert(p.drop_first() =~= Seq::<Seq<char>>::empty());
        assert(p[0] == l);
        lemma_env_lines_ok_rest(p);
        assert(entries_of(Seq::<Seq<char>>::empty()) =~= Seq::empty());
        assert(env_lines_ok(Seq::<Seq<char>>::empty()));
    } else {
        lemma_entries_push(ls.drop_first(), l);
        assert(p.drop_first() =~= ls.drop_first().push(l));
        assert(p[0] == ls[0]);
        lemma_env_lines_ok_rest(p);
        lemma_env_lines_ok_rest(ls);
        if !env_line_skipped(ls[0]) {
            assert(seq![env_line_entry(ls[0])->0] + (entries_of(ls.drop_first()) + (if env_line_skipped(l) {
                Seq::empty()
            } else {
                seq![env_line_entry(l)->0]
            })) =~= seq![env_line_entry(ls[0])->0] + entries_of(ls.drop_first()) + (if env_line_skipped(l) {
                Seq::empty()
            } else {
                seq![env_line_entry(l)->0]
            }));
        }
    }
}


// ---------------------------------------------------------------------------
// Lines that assign a key
// ---------------------------------------------------------------------------

/// A key that `.env` can hold and find again: not empty, no whitespace at
/// either end, no `#` first, and no `=` or newline in it.
pub open spec fn env_key_ok(key: Seq<char>) -> bool {
    &&& key.len() > 0
    &&& !is_ws(key[0])
    &&& !is_ws(key.last())
    &&& key[0] != '#'
    &&& forall|i: int| 0 <= i < key.len() ==> #[trigger] key[i] != '=' && key[i] != '\n'
}

/// A value that reads back as written: recordable, no whitespace at either
/// end, and not wrapped in a pair of quotes.
pub open spec fn env_value_clean(value: Seq<char>) -> bool {
    &&& env_value_ok(value)
    &&& !is_ws(value[0])
    &&& !is_ws(value.last())
    &&& unquoted(value) == value
}

proof fn lemma_trim_unchanged(s: Seq<char>)
    requires
        s.len() > 0,
        !is_ws(s[0]),
        !is_ws(s.last()),
    ensures
        trim(s) == s,
{
    assert(trim_start(s) == s);
}

/// Where the first `=` of `s` splits it.
proof fn lemma_split_eq(s: Seq<char>)
    ensures
        match find(s, seq!['=']) {
            Some(p) => 0 <= p < s.len() && s[p] == '=' && (forall|j: int| 0 <= j < p ==> s[j] != '=')
                && split_once(s, seq!['=']) == Some((s.take(p), s.skip(p + 1))),
            None => (forall|j: int| 0 <= j < s.len() ==> s[j] != '=') && split_once(s, seq!['='])
                is None,
        },
{
    lemma_find(s, seq!['=']);
    match find(s, seq!['=']) {
        Some(p) => {
            lemma_matches_char(s, '=', p);
            assert forall|j: int| 0 <= j < p implies s[j] != '=' by {
                lemma_matches_char(s, '=', j);
            }
        },
        None => {
            assert forall|j: int| 0 <= j < s.len() implies s[j] != '=' by {
                lemma_matches_char(s, '=', j);
                if s[j] == '=' {
                    assert(contains_seq(s, seq!['=']));
                }
            }
        },
    }
}

/// The first `=` at index `p` of `s` splits `s` there.
proof fn lemma_split_at_first_eq(s: Seq<char>, p: int)
    requires
        0 <= p < s.len(),
        s[p] == '=',
        forall|j: int| 0 <= j < p ==> s[j] != '=',
    ensures
        split_once(s, seq!['=']) == Some((s.take(p), s.skip(p + 1))),
{
    lemma_matches_char(s, '=', p);
    assert forall|j: int| 0 <= j < p implies !matches_at(s, seq!['='], j) by {
        lemma_matches_char(s, '=', j);
    }
    lemma_find_first(s, seq!['='], p);
}

proof fn lemma_trim_end_first(x: Seq<char>)
    requires
        x.len() > 0,
        !is_ws(x[0]),
    ensures
        trim_end(x).len() > 0 && trim_end(x)[0] == x[0],
{
    let b = lemma_trim_end_index(x);
    if b == 0 {
        assert(is_ws(x[0]));
    }
}

/// A line whose entry has key `key`.
pub open spec fn entry_has_key(l: Seq<char>, key: Seq<char>) -> bool {
    match env_line_entry(l) {
        Some((k, _)) => k == key,
        None => false,
    }
}

/// A line assigns `key` exactly when it is an entry whose key is `key`.
pub proof fn lemma_line_has_key(l: Seq<char>, key: Seq<char>)
    requires
        env_key_ok(key),
    ensures
        line_has_key(l, key) <==> (!env_line_skipped(l) && entry_has_key(l, key)),
{
    let a = lemma_trim_start_index(l);
    let ts = l.skip(a);
    let bb = lemma_trim_end_index(ts);
    let b = a + bb;
    let t = trim(l);
    assert(t =~= l.subrange(a, b));
    assert forall|j: int| b <= j < l.len() implies is_ws(#[trigger] l[j]) by {
        assert(l[j] == ts[j - a]);
    }
    if b > a {
        assert(l[b - 1] == ts[bb - 1]);
    }
    lemma_split_eq(l);
    match find(l, seq!['=']) {
        None => {
            lemma_split_eq(t);
            if let Some(q) = find(t, seq!['=']) {
                assert(t[q] == l[a + q]);
            }
        },
        Some(p) => {
            assert(a <= p) by {
                if p < a {
                    assert(is_ws(l[p]));
                }
            }
            assert(p < b) by {
                if p >= b {
                    assert(is_ws(l[p]));
                }
            }
            assert(t[p - a] == '=');
            assert forall|j: int| 0 <= j < p - a implies t[j] != '=' by {
                assert(t[j] == l[a + j]);
            }
            lemma_split_at_first_eq(t, p - a);
            let cand = l.take(p);
            let inner = l.subrange(a, p);
            assert(t.take(p - a) =~= inner);
            let a2 = lemma_trim_start_index(cand);
            assert(a2 == a) by {
                if a2 < a {
                    assert(cand[a2] == l[a2]);
                }
                if a2 > a {
                    assert(cand[a] == l[a]);
                    assert(l[a] != '=' ==> !is_ws(l[a]));
                }
            }
            assert(cand.skip(a) =~= inner);
            if inner.len() > 0 {
                assert(inner[0] == l[a]);
            }
            assert(trim_start(inner) == inner);
            assert(trim(cand) == trim(inner));
            if l[a] == '#' {
                assert(t[0] == '#');
                assert(inner.len() > 0);
                lemma_trim_end_first(inner);
                assert(trim(inner)[0] == '#');
            }
        },
    }
}

/// The line that records `key=value` is an entry for exactly that.
pub proof fn lemma_assignment_entry(key: Seq<char>, value: Seq<char>)
    requires
        env_key_ok(key),
        env_value_clean(value),
    ensures
        !env_line_skipped(env_assignment(key, value)),
        env_line_entry(env_assignment(key, value)) == Some((key, value)),
        line_has_key(env_assignment(key, value), key),
        no_newline(env_assignment(key, value)),
{
    let s = env_assignment(key, value);
    assert(s[0] == key[0]);
    assert(s.last() == value.last());
    lemma_trim_unchanged(s);
    lemma_trim_unchanged(key);
    lemma_trim_unchanged(value);
    assert(s[key.len() as int] == '=');
    assert forall|j: int| 0 <= j < key.len() implies s[j] != '=' by {
        assert(s[j] == key[j]);
    }
    lemma_split_at_first_eq(s, key.len() as int);
    assert(s.take(key.len() as int) =~= key);
    assert(s.skip(key.len() as int + 1) =~= value);
    assert forall|i: int| 0 <= i < s.len() implies s[i] != '\n' by {
        if i < key.len() {
            assert(s[i] == key[i]);
        } else if i > key.len() {
            assert(s[i] == value[i - key.len() - 1]);
        }
    }
}

// ---------------------------------------------------------------------------
// Entries after setting a key
// ---------------------------------------------------------------------------

pub open spec fn replace_entry(e: (Seq<char>, Seq<char>), key: Seq<char>, value: Seq<char>) -> (
    Seq<char>,
    Seq<char>,
) {
    if e.0 == key {
        (key, value)
    } else {
        e
    }
}

pub open spec fn entries_with_value(
    es: Seq<(Seq<char>, Seq<char>)>,
    key: Seq<char>,
    value: Seq<char>,
) -> Seq<(Seq<char>, Seq<char>)> {
    es.map_values(|e: (Seq<char>, Seq<char>)| replace_entry(e, key, value))
}

/// Replacing the lines that assign `key` replaces the entries for `key`.
proof fn lemma_entries_of_lines_with_value(ls: Seq<Seq<char>>, key: Seq<char>, value: Seq<char>)
    requires
        env_key_ok(key),
        env_value_clean(value),
        env_lines_ok(ls),
    ensures
        env_lines_ok(lines_with_value(ls, key, value)),
        entries_of(lines_with_value(ls, key, value)) == entries_with_value(entries_of(ls), key, value),
        some_line_has_key(ls, key) ==> exists|j: int|
            0 <= j < entries_of(ls).len() && (#[trigger] entries_of(ls)[j]).0 == key,
    decreases ls.len(),
{
    let lw = lines_with_value(ls, key, value);
    if ls.len() == 0 {
        assert(lw.len() == 0);
        assert(entries_with_value(entries_of(ls), key, value) =~= Seq::empty());
    } else {
        let rest = ls.drop_first();
        lemma_env_lines_ok_rest(ls);
        lemma_entries_of_lines_with_value(rest, key, value);
        assert(lw.drop_first() =~= lines_with_value(rest, key, value));
        lemma_env_lines_ok_rest(lw);
        lemma_line_has_key(ls[0], key);
        lemma_assignment_entry(key, value);
        let er = entries_of(rest);
        if line_has_key(ls[0], key) {
            assert(lw[0] == env_assignment(key, value));
            assert(entries_with_value(entries_of(ls), key, value) =~= seq![(key, value)]
                + entries_with_value(er, key, value));
            assert(entries_of(ls)[0].0 == key);
        } else {
            assert(lw[0] == ls[0]);
            if !env_line_skipped(ls[0]) {
                assert(entries_with_value(entries_of(ls), key, value) =~= seq![
                    env_line_entry(ls[0])->0,
                ] + entries_with_value(er, key, value));
            }
        }
        if some_line_has_key(ls, key) && !line_has_key(ls[0], key) {
            let k = choose|k: int| 0 <= k < ls.len() && line_has_key(#[trigger] ls[k], key);
            assert(rest[k - 1] == ls[k]);
            assert(some_line_has_key(rest, key));
            let j = choose|j: int| 0 <= j < er.len() && (#[trigger] er[j]).0 == key;
            if env_line_skipped(ls[0]) {
                assert(entries_of(ls)[j] == er[j]);
            } else {
                assert(entries_of(ls)[j + 1] == er[j]);
            }
        }
    }
}

/// After replacing the entries for `key`, `key` reads `value` if it was
/// present, and every other key reads what it read before.
proof fn lemma_lookup_with_value(
    es: Seq<(Seq<char>, Seq<char>)>,
    key: Seq<char>,
    value: Seq<char>,
    k2: Seq<char>,
)
    ensures
        env_lookup(entries_with_value(es, key, value), k2) == (if k2 == key {
            if env_lookup(es, key) is Some {
                Some(value)
            } else {
                None
            }
        } else {
            env_lookup(es, k2)
        }),
    decreases es.len(),
{
    let m = entries_with_value(es, key, value);
    if es.len() > 0 {
        assert(m.drop_last() =~= entries_with_value(es.drop_last(), key, value));
        assert(m.last() == replace_entry(es.last(), key, value));
        lemma_lookup_with_value(es.drop_last(), key, value, k2);
        lemma_lookup_with_value(es.drop_last(), key, value, key);
    }
}

/// A key that some entry has can be looked up.
proof fn lemma_lookup_present(es: Seq<(Seq<char>, Seq<char>)>, key: Seq<char>, j: int)
    requires
        0 <= j < es.len(),
        es[j].0 == key,
    ensures
        env_lookup(es, key) is Some,
    decreases es.len(),
{
    if es.last().0 != key {
        assert(j < es.len() - 1);
        assert(es.drop_last()[j] == es[j]);
        lemma_lookup_present(es.drop_last(), key, j);
    }
}

proof fn lemma_lines_from_no_newline(cur: Seq<char>, rest: Seq<char>)
    requires
        no_newline(cur),
    ensures
        lines_without_newline(lines_from(cur, rest)),
    decreases rest.len(),
{
    if rest.len() == 0 {
    } else if rest[0] == '\n' {
        lemma_lines_from_no_newline(Seq::empty(), rest.drop_first());
        let r = lines_from(Seq::empty(), rest.drop_first());
        let all = seq![strip_cr(cur)] + r;
        assert forall|i: int| 0 <= i < all.len() implies no_newline(#[trigger] all[i]) by {
            if i == 0 {
                assert(no_newline(strip_cr(cur))) by {
                    assert forall|k: int| 0 <= k < strip_cr(cur).len() implies strip_cr(cur)[k]
                        != '\n' by {
                        assert(strip_cr(cur)[k] == cur[k]);
                    }
                }
            } else {
                assert(all[i] == r[i - 1]);
            }
        }
    } else {
        assert(no_newline(cur.push(rest[0])));
        lemma_lines_from_no_newline(cur.push(rest[0]), rest.drop_first());
    }
}

/// Writing `key=value` into a `.env` text with `upsert_env` and reading the
/// result with `parse_env` gives `value` for `key` and leaves every other
/// key as it read before.
pub proof fn lemma_env_read_back(contents: Seq<char>, key: Seq<char>, value: Seq<char>)
    requires
        env_entries(contents) is Ok,
        env_key_ok(key),
        env_value_clean(value),
        env_with_value(contents, key, value) is Ok,
    ensures
        ({
            let text = env_with_value(contents, key, value)->Ok_0;
            let before = env_entries(contents)->Ok_0;
            &&& env_entries(text) is Ok
            &&& env_lookup(env_entries(text)->Ok_0, key) == Some(value)
            &&& forall|k2: Seq<char>|
                k2 != key ==> #[trigger] env_lookup(env_entries(text)->Ok_0, k2) == env_lookup(
                    before,
                    k2,
                )
        }),
{
    let ls = lines(contents);
    lemma_env_entries_of(ls, 0);
    let es = entries_of(ls);
    lemma_entries_of_lines_with_value(ls, key, value);
    lemma_assignment_entry(key, value);
    lemma_lines_from_no_newline(Seq::empty(), contents);
    let lw = lines_with_value(ls, key, value);
    let assign = env_assignment(key, value);
    let found = some_line_has_key(ls, key);
    let out = if found {
        lw
    } else {
        lw.push(assign)
    };
    assert(lines_without_newline(out)) by {
        assert forall|i: int| 0 <= i < out.len() implies no_newline(#[trigger] out[i]) by {
            if i < ls.len() {
                assert(lw[i] == (if line_has_key(ls[i], key) {
                    assign
                } else {
                    ls[i]
                }));
            } else {
                assert(out[i] == assign);
            }
        }
    }
    let out_entries = if found {
        entries_with_value(es, key, value)
    } else {
        entries_with_value(es, key, value).push((key, value))
    };
    if !found {
        lemma_entries_push(lw, assign);
        assert(seq![(key, value)] =~= seq![env_line_entry(assign)->0]);
    }
    assert(env_lines_ok(out));
    assert(entries_of(out) == out_entries);
    let text = env_with_value(contents, key, value)->Ok_0;
    assert(text == trim_leading_newlines(join_lines(out)) + seq!['\n']);
    lemma_trim_join(out);
    let d = drop_leading_empty(out);
    lemma_entries_drop_leading_empty(out);
    assert(text == join_lines(d) + seq!['\n']);
    let tl = lines(text);
    if d.len() == 0 {
        assert(join_lines(d) =~= Seq::<char>::empty());
        assert(text =~= seq!['\n']);
        assert(text.drop_first() =~= Seq::<char>::empty());
        assert(tl =~= seq![strip_cr(Seq::<char>::empty())]);
        assert(strip_cr(Seq::<char>::empty()) =~= Seq::<char>::empty());
        lemma_empty_trim(Seq::<char>::empty());
        assert(tl.drop_first() =~= Seq::<Seq<char>>::empty());
        lemma_env_lines_ok_rest(tl);
        assert(entries_of(tl) =~= entries_of(d));
    } else {
        lemma_lines_of_join(d);
        lemma_entries_strip_cr(d);
    }
    lemma_env_entries_of(tl, 0);
    assert(env_entries(text) == Ok::<_, nat>(out_entries));
    if found {
        let j = choose|j: int| 0 <= j < es.len() && (#[trigger] es[j]).0 == key;
        lemma_lookup_present(es, key, j);
        lemma_lookup_with_value(es, key, value, key);
    } else {
        let m = entries_with_value(es, key, value);
        assert(out_entries.drop_last() =~= m);
    }
    assert forall|k2: Seq<char>| k2 != key implies #[trigger] env_lookup(out_entries, k2)
        == env_lookup(es, k2) by {
        lemma_lookup_with_value(es, key, value, k2);
        if !found {
            let m = entries_with_value(es, key, value);
            assert(out_entries.drop_last() =~= m);
        }
    }
}

// ---------------------------------------------------------------------------
// Setting a key twice
// ---------------------------------------------------------------------------

pub open spec fn no_cr(s: Seq<char>) -> bool {
    forall|i: int| 0 <= i < s.len() ==> s[i] != '\r'
}

proof fn lemma_lines_from_no_cr(cur: Seq<char>, rest: Seq<char>)
    requires
        no_cr(cur),
        no_cr(rest),
    ensures
        forall|i: int| 0 <= i < lines_from(cur, rest).len() ==> no_cr(#[trigger] lines_from(cur, rest)[i]),
    decreases rest.len(),
{
    if rest.len() == 0 {
        if cur.len() > 0 {
            assert(lines_from(cur, rest) =~= seq![cur]);
        } else {
            assert(lines_from(cur, rest).len() == 0);
        }
    } else if rest[0] == '\n' {
        assert(no_cr(rest.drop_first()));
        lemma_lines_from_no_cr(Seq::empty(), rest.drop_first());
        let r = lines_from(Seq::empty(), rest.drop_first());
        let all = seq![strip_cr(cur)] + r;
        assert(lines_from(cur, rest) == all);
        assert forall|i: int| 0 <= i < all.len() implies no_cr(#[trigger] all[i]) by {
            if i == 0 {
                if cur.len() > 0 {
                    assert(cur.last() == cur[cur.len() - 1]);
                }
                assert(strip_cr(cur) == cur);
            } else {
                assert(all[i] == r[i - 1]);
            }
        }
    } else {
        assert(no_cr(cur.push(rest[0])));
        assert(no_cr(rest.drop_first()));
        lemma_lines_from_no_cr(cur.push(rest[0]), rest.drop_first());
        assert(lines_from(cur, rest) == lines_from(cur.push(rest[0]), rest.drop_first()));
    }
}

/// `drop_leading_empty` drops a prefix of empty lines.
proof fn lemma_drop_leading_empty_skip(ls: Seq<Seq<char>>) -> (k: int)
    ensures
        0 <= k <= ls.len(),
        drop_leading_empty(ls) == ls.skip(k),
        forall|i: int| 0 <= i < k ==> (#[trigger] ls[i]).len() == 0,
    decreases ls.len(),
{
    if ls.len() > 0 && ls[0].len() == 0 {
        let k1 = lemma_drop_leading_empty_skip(ls.drop_first());
        assert(ls.drop_first().skip(k1) =~= ls.skip(k1 + 1));
        assert forall|i: int| 0 <= i < k1 + 1 implies (#[trigger] ls[i]).len() == 0 by {
            if i > 0 {
                assert(ls[i] == ls.drop_first()[i - 1]);
            }
        }
        k1 + 1
    } else {
        assert(ls.skip(0) =~= ls);
        0
    }
}

/// A line `key=value` assigns `key` when the key is trimmed and holds no `=`.
proof fn lemma_assignment_has_key(key: Seq<char>, value: Seq<char>)
    requires
        trim(key) == key,
        forall|i: int| 0 <= i < key.len() ==> #[trigger] key[i] != '=',
    ensures
        line_has_key(env_assignment(key, value), key),
{
    let s = env_assignment(key, value);
    assert(s[key.len() as int] == '=');
    assert forall|j: int| 0 <= j < key.len() implies s[j] != '=' by {
        assert(s[j] == key[j]);
    }
    lemma_split_at_first_eq(s, key.len() as int);
    assert(s.take(key.len() as int) =~= key);
}

/// Setting a key with `upsert_env` to the value it was just set to changes
/// nothing, for a text without carriage returns and a trimmed key that
/// holds no `=`, newline or carriage return.
pub proof fn lemma_upsert_idempotent(contents: Seq<char>, key: Seq<char>, value: Seq<char>)
    requires
        no_cr(contents),
        trim(key) == key,
        forall|i: int| 0 <= i < key.len() ==> #[trigger] key[i] != '=' && key[i] != '\n' && key[i] != '\r',
        env_with_value(contents, key, value) is Ok,
    ensures
        env_with_value(env_with_value(contents, key, value)->Ok_0, key, value) == env_with_value(
            contents,
            key,
            value,
        ),
{
    let ls = lines(contents);
    let assign = env_assignment(key, value);
    lemma_assignment_has_key(key, value);
    lemma_lines_from_no_newline(Seq::empty(), contents);
    lemma_lines_from_no_cr(Seq::empty(), contents);
    let lw = lines_with_value(ls, key, value);
    let found = some_line_has_key(ls, key);
    let out = if found {
        lw
    } else {
        lw.push(assign)
    };
    assert(no_newline(assign) && no_cr(assign)) by {
        assert forall|i: int| 0 <= i < assign.len() implies assign[i] != '\n' && assign[i] != '\r' by {
            if i < key.len() {
                assert(assign[i] == key[i]);
            } else if i > key.len() {
                assert(assign[i] == value[i - key.len() - 1]);
            }
        }
    }
    assert forall|i: int| 0 <= i < out.len() implies no_newline(#[trigger] out[i]) && no_cr(out[i]) by {
        if i < ls.len() {
            assert(lw[i] == (if line_has_key(ls[i], key) {
                assign
            } else {
                ls[i]
            }));
        } else {
            assert(out[i] == assign);
        }
    }
    // the one line of `out` that assigns `key`
    let j0: int = if found {
        choose|j: int| 0 <= j < ls.len() && line_has_key(#[trigger] ls[j], key)
    } else {
        ls.len() as int
    };
    assert forall|i: int| 0 <= i < out.len() implies line_has_key(#[trigger] out[i], key) == (i == j0)
        && (i == j0 ==> out[i] == assign) by {
        if i < ls.len() {
            assert(lw[i] == (if line_has_key(ls[i], key) {
                assign
            } else {
                ls[i]
            }));
            if line_has_key(ls[i], key) && i != j0 {
                if i < j0 {
                    assert(line_has_key(ls[j0], key));
                    assert(two_lines_have_key(ls, key));
                } else {
                    assert(two_lines_have_key(ls, key));
                }
            }
            if i == j0 {
                assert(line_has_key(ls[i], key));
            }
        } else {
            assert(out[i] == assign);
        }
    }
    let text = env_with_value(contents, key, value)->Ok_0;
    lemma_trim_join(out);
    let k = lemma_drop_leading_empty_skip(out);
    let d = drop_leading_empty(out);
    assert(0 <= j0 < out.len());
    assert(out[j0] == assign);
    assert(j0 >= k) by {
        if j0 < k {
            assert(out[j0].len() == 0);
        }
    }
    assert(d.len() > 0 && d[j0 - k] == out[j0]);
    assert(text == join_lines(d) + seq!['\n']);
    lemma_lines_of_join(d);
    assert(d.map_values(|l: Seq<char>| strip_cr(l)) =~= d) by {
        assert forall|i: int| 0 <= i < d.len() implies strip_cr(#[trigger] d[i]) == d[i] by {
            assert(d[i] == out[i + k]);
            assert(no_cr(out[i + k]));
            if d[i].len() > 0 {
                assert(d[i].last() == d[i][d[i].len() - 1]);
            }
        }
    }
    let ls2 = lines(text);
    assert(ls2 == d);
    assert forall|i: int| 0 <= i < d.len() implies line_has_key(#[trigger] d[i], key) == (i == j0 - k)
        && (i == j0 - k ==> d[i] == assign) by {
        assert(d[i] == out[i + k]);
    }
    assert(!two_lines_have_key(d, key));
    assert(some_line_has_key(d, key)) by {
        assert(line_has_key(d[j0 - k], key));
    }
    assert(lines_with_value(d, key, value) =~= d);
    assert(drop_leading_empty(d) == d);
    lemma_trim_join(d);
}

/// The registration with `half` recorded under `serial`.
pub open spec fn with_serial(
    config: (Option<Seq<char>>, Option<Seq<char>>),
    half: Half,
    serial: Seq<char>,
) -> (Option<Seq<char>>, Option<Seq<char>>) {
    match half {
        Half::Left => (Some(serial), config.1),
        Half::Right => (config.0, Some(serial)),
    }
}

/// The two keys of the registration file can be written and found again.
pub proof fn lemma_serial_keys_ok()
    ensures
        env_key_ok(LEFT_SERIAL_KEY@),
        env_key_ok(RIGHT_SERIAL_KEY@),
        LEFT_SERIAL_KEY@ != RIGHT_SERIAL_KEY@,
{
    reveal_strlit("DAO_LEFT_BOOTLOADER_SERIAL");
    reveal_strlit("DAO_RIGHT_BOOTLOADER_SERIAL");
    assert(LEFT_SERIAL_KEY@[4] != RIGHT_SERIAL_KEY@[4]);
}

/// Recording a serial for a half with `upsert_env` and reading the file
/// back with `FlashConfig::from_env` gives the old registration with that
/// half set to the serial, as long as the serial is clean and is not the
/// other half's.
pub proof fn lemma_registration_read_back(contents: Seq<char>, half: Half, serial: Seq<char>)
    requires
        config_of_env(contents) is Ok,
        env_value_clean(serial),
        env_with_value(contents, half_env_key(half), serial) is Ok,
        serial_of(config_of_env(contents)->Ok_0, spec_other_half(half)) != Some(serial),
    ensures
        config_of_env(env_with_value(contents, half_env_key(half), serial)->Ok_0) == Ok::<
            _,
            crate::flash::FlashError,
        >(with_serial(config_of_env(contents)->Ok_0, half, serial)),
{
    lemma_serial_keys_ok();
    let key = half_env_key(half);
    let text = env_with_value(contents, key, serial)->Ok_0;
    lemma_env_read_back(contents, key, serial);
    let before = env_entries(contents)->Ok_0;
    let after = env_entries(text)->Ok_0;
    assert(env_lookup(after, LEFT_SERIAL_KEY@) == (if half == Half::Left {
        Some(serial)
    } else {
        env_lookup(before, LEFT_SERIAL_KEY@)
    }));
    assert(env_lookup(after, RIGHT_SERIAL_KEY@) == (if half == Half::Right {
        Some(serial)
    } else {
        env_lookup(before, RIGHT_SERIAL_KEY@)
    }));
}
} // verus!
