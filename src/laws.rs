use vstd::prelude::*;

use crate::entry::{default_identity_file, default_user, fresh_entry, HostEntryView, DEFAULT_PORT};
use crate::parser::{
    apply_directive, closed, is_directive_line, keyword_of, parsed, run, start_state, step,
    value_of, ParseState,
};
use crate::text::{
    first_space, folded, is_space, port_value, same_keyword, trim_end, trim_start, trimmed,
};

verus! {

/// A keyword as it can open a directive line: not empty, without whitespace,
/// and not starting a comment.
pub open spec fn is_word(k: Seq<char>) -> bool {
    &&& k.len() > 0
    &&& k[0] != '#'
    &&& forall|i: int| 0 <= i < k.len() ==> !is_space(#[trigger] k[i])
}

/// The line `k v`: a keyword, one space, and the rest of the line.
pub open spec fn directive_line(k: Seq<char>, v: Seq<char>) -> Seq<char> {
    k + seq![' '] + v
}

/// A line that opens a new block.
pub open spec fn is_host_line(l: Seq<char>) -> bool {
    is_directive_line(trimmed(l)) && same_keyword(keyword_of(trimmed(l)), "host"@)
}

/// A line that is the directive `word` (up to letter case), other than `Host`.
pub open spec fn is_directive_for(l: Seq<char>, word: Seq<char>) -> bool {
    is_directive_line(trimmed(l)) && same_keyword(keyword_of(trimmed(l)), word)
}

/// The text of each `Host` line of `lines`, in order.
pub open spec fn host_names(lines: Seq<Seq<char>>) -> Seq<Seq<char>>
    decreases lines.len(),
{
    if lines.len() == 0 {
        Seq::empty()
    } else if is_host_line(lines.last()) {
        host_names(lines.drop_last()).push(value_of(trimmed(lines.last())))
    } else {
        host_names(lines.drop_last())
    }
}

proof fn lemma_trim_end_concat(a: Seq<char>, b: Seq<char>)
    ensures
        trim_end(b).len() > 0 ==> trim_end(a + b) == a + trim_end(b),
        trim_end(b).len() == 0 ==> trim_end(a + b) == trim_end(a),
    decreases b.len(),
{
    if b.len() == 0 {
        assert(a + b =~= a);
    } else {
        assert((a + b).last() == b.last());
        if is_space(b.last()) {
            assert((a + b).drop_last() =~= a + b.drop_last());
            lemma_trim_end_concat(a, b.drop_last());
        }
    }
}

proof fn lemma_first_space_concat(k: Seq<char>, r: Seq<char>)
    requires
        forall|i: int| 0 <= i < k.len() ==> #[trigger] k[i] != ' ',
        r.len() == 0 || r[0] == ' ',
    ensures
        first_space(k + r) == k.len(),
    decreases k.len(),
{
    if k.len() == 0 {
        assert(k + r =~= r);
    } else {
        assert((k + r)[0] == k[0]);
        assert((k + r).drop_first() =~= k.drop_first() + r);
        assert forall|i: int| 0 <= i < k.drop_first().len() implies #[trigger] k.drop_first()[i]
            != ' ' by {
            assert(k.drop_first()[i] == k[i + 1]);
        }
        lemma_first_space_concat(k.drop_first(), r);
    }
}

/// How a line `k v` splits: when `v` holds more than whitespace, the line is
/// the directive `k` with the value `v` trimmed; otherwise it is no directive.
pub proof fn lemma_directive_parts(k: Seq<char>, v: Seq<char>)
    requires
        is_word(k),
    ensures
        trim_end(v).len() > 0 ==> {
            let t = trimmed(directive_line(k, v));
            &&& is_directive_line(t)
            &&& keyword_of(t) == k
            &&& value_of(t) == trimmed(trim_end(v))
        },
        trim_end(v).len() == 0 ==> !is_directive_line(trimmed(directive_line(k, v))),
{
    let l = directive_line(k, v);
    let ks = k + seq![' '];
    assert(l[0] == k[0]);
    assert(!is_space(k[0]));
    assert(trim_start(l) == l);
    assert(l =~= ks + v);
    lemma_trim_end_concat(ks, v);
    assert forall|i: int| 0 <= i < k.len() implies #[trigger] k[i] != ' ' by {
        assert(!is_space(k[i]));
    }
    if trim_end(v).len() > 0 {
        let t = ks + trim_end(v);
        assert(trimmed(l) == t);
        assert(t =~= k + (seq![' '] + trim_end(v)));
        lemma_first_space_concat(k, seq![' '] + trim_end(v));
        assert(t[0] == k[0]);
        assert(keyword_of(t) =~= k);
        assert(t.subrange(k.len() as int + 1, t.len() as int) =~= trim_end(v));
    } else {
        assert(ks.drop_last() =~= k);
        assert(is_space(ks.last()));
        assert(!is_space(k.last()));
        assert(trim_end(ks) == trim_end(k));
        assert(trim_end(k) == k);
        assert(k + Seq::<char>::empty() =~= k);
        lemma_first_space_concat(k, Seq::empty());
    }
}

/// A value as it stands after trimming: not empty, and neither starting nor
/// ending with whitespace.
pub open spec fn is_bare_value(v: Seq<char>) -> bool {
    v.len() > 0 && !is_space(v[0]) && !is_space(v.last())
}

/// No line of `body` is the directive `word`.
pub open spec fn no_directive(body: Seq<Seq<char>>, word: Seq<char>) -> bool {
    forall|j: int| 0 <= j < body.len() ==> !is_directive_for(#[trigger] body[j], word)
}

/// No line of `body` is a `Port` directive whose value parses.
pub open spec fn no_port_set(body: Seq<Seq<char>>) -> bool {
    forall|j: int|
        0 <= j < body.len() && is_directive_for(#[trigger] body[j], "port"@) ==> port_value(
            value_of(trimmed(body[j])),
        ).is_none()
}

/// No line of `lines` is a `Host` line.
pub open spec fn no_host_line(lines: Seq<Seq<char>>) -> bool {
    forall|j: int| 0 <= j < lines.len() ==> !is_host_line(#[trigger] lines[j])
}

proof fn lemma_bare_value_trimmed(v: Seq<char>)
    requires
        is_bare_value(v),
    ensures
        trim_end(v) == v,
        trimmed(trim_end(v)) == v,
{
    assert(trim_start(v) == v);
}

proof fn lemma_same_keyword_shared(k1: Seq<char>, k2: Seq<char>, w: Seq<char>)
    requires
        same_keyword(k1, k2),
    ensures
        same_keyword(k1, w) == same_keyword(k2, w),
{
    if same_keyword(k1, w) {
        assert forall|i: int| 0 <= i < k2.len() implies folded(#[trigger] k2[i]) == folded(w[i]) by {
            assert(folded(k1[i]) == folded(k2[i]));
        }
    }
    if same_keyword(k2, w) {
        assert forall|i: int| 0 <= i < k1.len() implies folded(#[trigger] k1[i]) == folded(w[i]) by {
            assert(folded(k1[i]) == folded(k2[i]));
        }
    }
}

/// Directive keywords are matched without regard to the case of ASCII
/// letters: two lines that differ only in the case of their keyword have the
/// same effect on every parser state.
pub proof fn lemma_keyword_case_ignored(st: ParseState, k1: Seq<char>, k2: Seq<char>, v: Seq<char>)
    requires
        is_word(k1),
        is_word(k2),
        same_keyword(k1, k2),
    ensures
        step(st, directive_line(k1, v)) == step(st, directive_line(k2, v)),
{
    lemma_directive_parts(k1, v);
    lemma_directive_parts(k2, v);
    lemma_same_keyword_shared(k1, k2, "host"@);
    lemma_same_keyword_shared(k1, k2, "hostname"@);
    lemma_same_keyword_shared(k1, k2, "port"@);
    lemma_same_keyword_shared(k1, k2, "user"@);
    lemma_same_keyword_shared(k1, k2, "identityfile"@);
}

proof fn lemma_user_keyword_distinct(k: Seq<char>)
    requires
        same_keyword(k, "user"@),
    ensures
        !same_keyword(k, "host"@),
        !same_keyword(k, "hostname"@),
        !same_keyword(k, "port"@),
{
    reveal_strlit("user");
    reveal_strlit("host");
    reveal_strlit("hostname");
    reveal_strlit("port");
    assert(folded(k[0]) == folded("user"@[0]));
}

/// Within one block the last `User` directive decides the user: after two of
/// them the entry's user is the second value.
pub proof fn lemma_last_user_wins(st: ParseState, k: Seq<char>, v1: Seq<char>, v2: Seq<char>)
    requires
        st.current.is_some(),
        is_word(k),
        same_keyword(k, "user"@),
        is_bare_value(v2),
    ensures
        step(step(st, directive_line(k, v1)), directive_line(k, v2)).current matches Some(e)
            && e.user == v2,
{
    lemma_user_keyword_distinct(k);
    lemma_directive_parts(k, v1);
    lemma_directive_parts(k, v2);
    lemma_bare_value_trimmed(v2);
}

/// A `Host` line opens exactly one entry whose name and host are the whole
/// trimmed text after the keyword, spaces included, and finishes the block
/// that was open before it.
pub proof fn lemma_host_line_opens_one_entry(st: ParseState, k: Seq<char>, v: Seq<char>)
    requires
        is_word(k),
        same_keyword(k, "host"@),
        is_bare_value(v),
    ensures
        step(st, directive_line(k, v)) == (ParseState {
            done: closed(st),
            current: Some(fresh_entry(v)),
        }),
{
    lemma_directive_parts(k, v);
    lemma_bare_value_trimmed(v);
}

/// Without a `Host` line nothing is parsed: every directive is dropped and
/// the result is empty.
pub proof fn lemma_no_host_no_entries(lines: Seq<Seq<char>>)
    requires
        no_host_line(lines),
    ensures
        run(lines) == start_state(),
        parsed(lines) == Seq::<HostEntryView>::empty(),
    decreases lines.len(),
{
    if lines.len() > 0 {
        assert forall|j: int| 0 <= j < lines.drop_last().len() implies !is_host_line(
            #[trigger] lines.drop_last()[j],
        ) by {
            assert(lines.drop_last()[j] == lines[j]);
        }
        lemma_no_host_no_entries(lines.drop_last());
        assert(!is_host_line(lines[lines.len() - 1]));
    }
}

/// Directives before the first `Host` line are dropped: the lines before it
/// do not change the result.
pub proof fn lemma_leading_lines_dropped(pre: Seq<Seq<char>>, rest: Seq<Seq<char>>)
    requires
        no_host_line(pre),
    ensures
        parsed(pre + rest) == parsed(rest),
{
    lemma_no_host_no_entries(pre);
    lemma_run_after_start(pre, rest);
}

proof fn lemma_run_after_start(pre: Seq<Seq<char>>, rest: Seq<Seq<char>>)
    requires
        run(pre) == start_state(),
    ensures
        run(pre + rest) == run(rest),
    decreases rest.len(),
{
    if rest.len() == 0 {
        assert(pre + rest =~= pre);
    } else {
        assert((pre + rest).drop_last() =~= pre + rest.drop_last());
        assert((pre + rest).last() == rest.last());
        lemma_run_after_start(pre, rest.drop_last());
    }
}

/// The result holds one entry for each `Host` line, in the order of those
/// lines, each named by its line.
pub proof fn lemma_one_entry_per_host_line(lines: Seq<Seq<char>>)
    ensures
        parsed(lines).len() == host_names(lines).len(),
        forall|i: int| 0 <= i < parsed(lines).len() ==> (#[trigger] parsed(lines)[i]).name
            == host_names(lines)[i],
    decreases lines.len(),
{
    if lines.len() > 0 {
        let prev = lines.drop_last();
        lemma_one_entry_per_host_line(prev);
        let st = run(prev);
        let l = lines.last();
        let t = trimmed(l);
        let before = closed(st);
        let after = closed(step(st, l));
        assert(parsed(prev) == before);
        assert(parsed(lines) == after);
        if is_host_line(l) {
            assert(after == before.push(fresh_entry(value_of(t))));
            assert forall|i: int| 0 <= i < after.len() implies (#[trigger] after[i]).name
                == host_names(lines)[i] by {
                if i < before.len() {
                    assert(after[i] == before[i]);
                    assert(parsed(prev)[i].name == host_names(prev)[i]);
                }
            }
        } else if is_directive_line(t) && st.current.is_some() {
            let e = st.current.unwrap();
            let e2 = apply_directive(e, keyword_of(t), value_of(t));
            assert(before == st.done.push(e));
            assert(after == st.done.push(e2));
            assert forall|i: int| 0 <= i < after.len() implies (#[trigger] after[i]).name
                == host_names(lines)[i] by {
                assert(host_names(lines) == host_names(prev));
                assert(parsed(prev)[i].name == host_names(prev)[i]);
                if i < st.done.len() {
                    assert(after[i] == before[i]);
                } else {
                    assert(after[i] == e2);
                    assert(before[i] == e);
                }
            }
        } else {
            assert(after == before);
        }
    }
}

/// The fields of `e` that no directive of `body` sets hold their defaults.
pub open spec fn keeps_defaults(e: HostEntryView, body: Seq<Seq<char>>) -> bool {
    &&& no_directive(body, "hostname"@) ==> e.host == e.name
    &&& no_directive(body, "user"@) ==> e.user == default_user()
    &&& no_port_set(body) ==> e.port == Some(DEFAULT_PORT)
    &&& no_directive(body, "identityfile"@) ==> e.identity_file == Some(default_identity_file())
}

/// Every block's entry keeps the default of each field that no directive of
/// the block sets: the host is the name, the user `root`, the port 22 (also
/// when every `Port` value fails to parse) and the identity file
/// `~/.ssh/id_rsa`. The block is the `Host` line `h` and the lines `body`
/// after it, up to the next `Host` line or the end; its entry is the one
/// after the entries of the `Host` lines before it.
pub proof fn lemma_block_defaults(
    before: Seq<Seq<char>>,
    h: Seq<char>,
    body: Seq<Seq<char>>,
    after: Seq<Seq<char>>,
)
    requires
        is_host_line(h),
        no_host_line(body),
        after.len() == 0 || is_host_line(after[0]),
    ensures
        ({
            let p = parsed(before + seq![h] + body + after);
            let i = host_names(before).len() as int;
            &&& i < p.len()
            &&& p[i].name == value_of(trimmed(h))
            &&& keeps_defaults(p[i], body)
        }),
{
    let x = before + seq![h] + body;
    lemma_block_entry(before, h, body);
    lemma_one_entry_per_host_line(before);
    let e = run(x).current.unwrap();
    let k = run(x).done.len() as int;
    assert(closed(run(x)) == run(x).done.push(e));
    if after.len() == 0 {
        assert(x + after =~= x);
    } else {
        let y = x + seq![after[0]];
        let rest = after.drop_first();
        assert(y.drop_last() =~= x);
        assert(y.last() == after[0]);
        assert(run(y).done == closed(run(x)));
        assert(x + after =~= y + rest);
        lemma_done_prefix(y, rest);
        let z = run(y + rest);
        assert(z.done[k] == e);
        assert(closed(z)[k] == z.done[k]);
    }
}

proof fn lemma_done_prefix(a: Seq<Seq<char>>, b: Seq<Seq<char>>)
    ensures
        run(a).done.len() <= run(a + b).done.len(),
        forall|i: int| 0 <= i < run(a).done.len() ==> #[trigger] run(a + b).done[i] == run(a).done[i],
    decreases b.len(),
{
    if b.len() == 0 {
        assert(a + b =~= a);
    } else {
        assert((a + b).drop_last() =~= a + b.drop_last());
        assert((a + b).last() == b.last());
        lemma_done_prefix(a, b.drop_last());
        let st = run(a + b.drop_last());
        assert forall|i: int| 0 <= i < run(a).done.len() implies #[trigger] run(a + b).done[i]
            == run(a).done[i] by {
            assert(st.done[i] == run(a).done[i]);
            assert(closed(st)[i] == st.done[i]);
        }
    }
}

proof fn lemma_block_entry(before: Seq<Seq<char>>, h: Seq<char>, body: Seq<Seq<char>>)
    requires
        is_host_line(h),
        no_host_line(body),
    ensures
        run(before + seq![h] + body).done == closed(run(before)),
        run(before + seq![h] + body).current matches Some(e) && e.name == value_of(trimmed(h))
            && keeps_defaults(e, body),
    decreases body.len(),
{
    let lines = before + seq![h] + body;
    if body.len() == 0 {
        assert(lines.drop_last() =~= before);
        assert(lines.last() == h);
    } else {
        let b = body.drop_last();
        let l = body.last();
        assert(lines.drop_last() =~= before + seq![h] + b);
        assert(lines.last() == l);
        assert(body[body.len() - 1] == l);
        assert forall|j: int| 0 <= j < b.len() implies !is_host_line(#[trigger] b[j]) by {
            assert(b[j] == body[j]);
        }
        lemma_block_entry(before, h, b);
        if no_directive(body, "hostname"@) {
            assert forall|j: int| 0 <= j < b.len() implies !is_directive_for(
                #[trigger] b[j],
                "hostname"@,
            ) by {
                assert(b[j] == body[j]);
            }
        }
        if no_directive(body, "user"@) {
            assert forall|j: int| 0 <= j < b.len() implies !is_directive_for(
                #[trigger] b[j],
                "user"@,
            ) by {
                assert(b[j] == body[j]);
            }
        }
        if no_directive(body, "identityfile"@) {
            assert forall|j: int| 0 <= j < b.len() implies !is_directive_for(
                #[trigger] b[j],
                "identityfile"@,
            ) by {
                assert(b[j] == body[j]);
            }
        }
        if no_port_set(body) {
            assert forall|j: int|
                0 <= j < b.len() && is_directive_for(#[trigger] b[j], "port"@) implies port_value(
                value_of(trimmed(b[j])),
            ).is_none() by {
                assert(b[j] == body[j]);
            }
        }
    }
}

/// Parsing depends on the lines alone: equal lines give equal entries, so
/// reading the same file twice gives the same result.
pub proof fn lemma_parse_deterministic(a: Seq<Seq<char>>, b: Seq<Seq<char>>)
    requires
        a == b,
    ensures
        parsed(a) == parsed(b),
{
}

} // verus!
