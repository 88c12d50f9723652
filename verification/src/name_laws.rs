//! Laws of the name cleaner: what holds of every list of names it cleans.

use crate::names::{
    all_clean_tokens, ascii_name_tokens, capitalize, char_at, clean_ascii_names_spec,
    clean_names_spec, clean_one_ascii_spec, clean_one_spec, dedupe_spec,
    dedupe_state, first_free, format_tokens_spec, identifier_start_spec, is_clean_token,
    is_first_free, lemma_suffix_set, lemma_tokenize_clean, lemma_tokens_upto_clean,
    lemma_with_suffix_shape,
    name_tokens, pick_name, starts_token, strip_marks, suffix_set, token_boundary, tokenize,
    tokens_upto, translate, translate_char, with_suffix_spec, CaseStyle,
};
use crate::text::{
    all_ascii, concat, is_alnum, decimal, is_ascii_char, is_digit, is_lower, is_upper, is_white_space, join,
    lemma_decimal_digits, lemma_trim_no_white_space, to_lower, to_upper, trim, upper_all,
};
use crate::unicode::{combining_mark, nfkd};
use vstd::prelude::*;

verus! {

proof fn lemma_suffixes_in_use(used: Set<Seq<char>>, name: Seq<char>, case: CaseStyle, lo: nat, hi: nat)
    requires
        used.finite(),
        lo <= hi,
        forall|j: nat| lo <= j < hi ==> used.contains(#[trigger] with_suffix_spec(name, j, case)),
    ensures
        hi <= lo + used.len(),
{
    lemma_suffix_set(name, case, lo, hi);
    let t = suffix_set(name, case, lo, hi);
    assert(t.subset_of(used)) by {
        assert forall|x: Seq<char>| t.contains(x) implies used.contains(x) by {
            let j = choose|j: nat| lo <= j < hi && x == with_suffix_spec(name, j, case);
        }
    }
    vstd::set_lib::lemma_len_subset(t, used);
}

proof fn lemma_first_free_search(
    used: Set<Seq<char>>,
    name: Seq<char>,
    case: CaseStyle,
    start: nat,
    k: nat,
)
    requires
        used.finite(),
        start <= k <= start + used.len(),
        forall|j: nat| start <= j < k ==> used.contains(#[trigger] with_suffix_spec(name, j, case)),
    ensures
        is_first_free(used, name, case, start, first_free(used, name, case, start)),
    decreases start + used.len() - k,
{
    if !used.contains(with_suffix_spec(name, k, case)) {
        assert(is_first_free(used, name, case, start, k));
    } else {
        lemma_suffixes_in_use(used, name, case, start, k + 1);
        lemma_first_free_search(used, name, case, start, k + 1);
    }
}

/// Among finitely many names in use there is always a least free suffix.
pub proof fn lemma_first_free_exists(used: Set<Seq<char>>, name: Seq<char>, case: CaseStyle, start: nat)
    requires
        used.finite(),
    ensures
        is_first_free(used, name, case, start, first_free(used, name, case, start)),
{
    lemma_first_free_search(used, name, case, start, start);
}

/// Telling duplicates apart keeps the number of names, gives pairwise
/// distinct names, and gives each name either unchanged or with a suffix of
/// at least 2.
pub proof fn law_dedupe_distinct(names: Seq<Seq<char>>, case: CaseStyle)
    ensures
        dedupe_spec(names, case).len() == names.len(),
        dedupe_spec(names, case).no_duplicates(),
        forall|i: int|
            0 <= i < names.len() ==> {
                ||| #[trigger] dedupe_spec(names, case)[i] == names[i]
                ||| exists|k: nat|
                    k >= 2 && dedupe_spec(names, case)[i] == with_suffix_spec(names[i], k, case)
            },
    decreases names.len(),
{
    lemma_dedupe_state(names, case);
}

/// The name given to each entry depends only on the entries before it:
/// telling apart the first `k` names gives the first `k` names of the
/// whole result.
pub proof fn law_dedupe_prefix_stable(names: Seq<Seq<char>>, case: CaseStyle, k: int)
    requires
        0 <= k <= names.len(),
    ensures
        dedupe_spec(names.take(k), case) == dedupe_spec(names, case).take(k),
    decreases names.len(),
{
    law_dedupe_distinct(names, case);
    if k == names.len() {
        assert(names.take(k) =~= names);
        assert(dedupe_spec(names, case).take(k) =~= dedupe_spec(names, case));
    } else {
        let d = names.drop_last();
        law_dedupe_prefix_stable(d, case, k);
        law_dedupe_distinct(d, case);
        assert(names.take(k) =~= d.take(k));
        assert(dedupe_spec(names, case).take(k) =~= dedupe_spec(d, case).take(k));
    }
}

/// Cleaning the first `k` names gives the first `k` cleaned names: a cleaned
/// name never depends on the names after it.
pub proof fn law_clean_names_prefix_stable(names: Seq<Seq<char>>, case: CaseStyle, k: int)
    requires
        0 <= k <= names.len(),
    ensures
        clean_names_spec(names.take(k), case) == clean_names_spec(names, case).take(k),
{
    let bases = names.map_values(|n: Seq<char>| clean_one_spec(n, case));
    law_dedupe_prefix_stable(bases, case, k);
    assert(names.take(k).map_values(|n: Seq<char>| clean_one_spec(n, case)) =~= bases.take(k));
}

proof fn lemma_dedupe_state(names: Seq<Seq<char>>, case: CaseStyle)
    ensures
        dedupe_state(names, case).0.len() == names.len(),
        dedupe_state(names, case).0.no_duplicates(),
        forall|b: Seq<char>|
            #[trigger] dedupe_state(names, case).1.dom().contains(b) ==> dedupe_state(
                names,
                case,
            ).1[b] >= 2,
        forall|i: int|
            0 <= i < names.len() ==> {
                ||| #[trigger] dedupe_state(names, case).0[i] == names[i]
                ||| exists|k: nat|
                    k >= 2 && dedupe_state(names, case).0[i] == with_suffix_spec(names[i], k, case)
            },
    decreases names.len(),
{
    if names.len() > 0 {
        let rest = names.drop_last();
        lemma_dedupe_state(rest, case);
        let prev = dedupe_state(rest, case);
        let name = names.last();
        let start: nat = if prev.1.dom().contains(name) {
            prev.1[name]
        } else {
            2
        };
        let used = prev.0.to_set();
        vstd::seq_lib::seq_to_set_is_finite(prev.0);
        let picked = pick_name(used, name, case, start);
        if used.contains(name) {
            lemma_first_free_exists(used, name, case, start);
        }
        assert(!used.contains(picked.0));
        let out = dedupe_state(names, case).0;
        assert(out == prev.0.push(picked.0));
        assert forall|i: int, j: int|
            0 <= i < out.len() && 0 <= j < out.len() && i != j implies out[i] != out[j] by {
            if i == out.len() - 1 {
                assert(used.contains(out[j]));
            } else if j == out.len() - 1 {
                assert(used.contains(out[i]));
            }
        }
        assert forall|i: int| 0 <= i < names.len() implies {
            ||| #[trigger] dedupe_state(names, case).0[i] == names[i]
            ||| exists|k: nat|
                k >= 2 && dedupe_state(names, case).0[i] == with_suffix_spec(names[i], k, case)
        } by {
            if i < names.len() - 1 {
                assert(names[i] == rest[i]);
                assert(out[i] == prev.0[i]);
            } else if used.contains(name) {
                let k = first_free(used, name, case, start);
                assert(out[i] == with_suffix_spec(names[i], k, case));
            }
        }
    }
}

/// Names that are already pairwise distinct are kept as they are.
pub proof fn law_dedupe_keeps_distinct(names: Seq<Seq<char>>, case: CaseStyle)
    requires
        names.no_duplicates(),
    ensures
        dedupe_spec(names, case) == names,
    decreases names.len(),
{
    if names.len() > 0 {
        let rest = names.drop_last();
        assert(rest.no_duplicates());
        law_dedupe_keeps_distinct(rest, case);
        let prev = dedupe_state(rest, case);
        assert(prev.0 == rest);
        let name = names.last();
        assert(!prev.0.to_set().contains(name)) by {
            if prev.0.contains(name) {
                let k = choose|k: int| 0 <= k < rest.len() && rest[k] == name;
                assert(names[k] == names[names.len() - 1]);
            }
        }
        assert(dedupe_spec(names, case) =~= names);
    }
}


// ---------------------------------------------------------------------------
// Cleaned names are non-empty
// ---------------------------------------------------------------------------

proof fn lemma_join_prefix(ts: Seq<Seq<char>>, sep: Seq<char>)
    requires
        ts.len() >= 1,
    ensures
        join(ts, sep).len() >= ts[0].len(),
        forall|i: int| 0 <= i < ts[0].len() ==> #[trigger] join(ts, sep)[i] == ts[0][i],
    decreases ts.len(),
{
    if ts.len() > 1 {
        lemma_join_prefix(ts.drop_last(), sep);
        let j = join(ts.drop_last(), sep);
        assert(join(ts, sep) == j + sep + ts.last());
        assert forall|i: int| 0 <= i < ts[0].len() implies #[trigger] join(ts, sep)[i] == ts[0][i] by {
            assert(ts.drop_last()[0] == ts[0]);
            assert(join(ts, sep)[i] == j[i]);
        }
    }
}

proof fn lemma_concat_prefix(ts: Seq<Seq<char>>)
    requires
        ts.len() >= 1,
    ensures
        concat(ts).len() >= ts[0].len(),
    decreases ts.len(),
{
    if ts.len() > 1 {
        lemma_concat_prefix(ts.drop_last());
    } else {
        assert(ts.drop_last() =~= Seq::<Seq<char>>::empty());
    }
}

proof fn lemma_format_nonempty(ts: Seq<Seq<char>>, case: CaseStyle)
    requires
        ts.len() >= 1,
        ts[0].len() > 0,
    ensures
        format_tokens_spec(ts, case).len() > 0,
{
    match case {
        CaseStyle::Snake => {
            lemma_join_prefix(ts, seq!['_']);
        },
        CaseStyle::Constant => {
            lemma_join_prefix(ts, seq!['_']);
        },
        CaseStyle::Camel => {},
        CaseStyle::Pascal => {
            let caps = ts.map_values(|t: Seq<char>| capitalize(t));
            lemma_concat_prefix(caps);
        },
    }
}

/// The tokens that cleaning one name formats: the name's tokens, or `x`.
pub open spec fn base_tokens(name: Seq<char>) -> Seq<Seq<char>> {
    if name_tokens(name).len() == 0 {
        seq![seq!['x']]
    } else {
        name_tokens(name)
    }
}

proof fn lemma_base_tokens_clean(name: Seq<char>)
    ensures
        base_tokens(name).len() > 0,
        all_clean_tokens(base_tokens(name)),
{
    lemma_tokenize_clean(strip_marks(nfkd(translate(trim(name)))));
    let x = seq!['x'];
    assert(forall|i: int| 0 <= i < x.len() ==> is_lower(#[trigger] x[i]));
    assert(is_clean_token(x));
}

/// One cleaned name is never empty.
pub proof fn lemma_clean_one_nonempty(name: Seq<char>, case: CaseStyle)
    ensures
        clean_one_spec(name, case).len() > 0,
{
    lemma_base_tokens_clean(name);
    let ts = base_tokens(name);
    assert(is_clean_token(ts[0]));
    lemma_format_nonempty(ts, case);
}

/// Cleaning keeps the number of names, gives pairwise distinct names, and
/// never gives an empty name.
pub proof fn law_clean_names_distinct_nonempty(names: Seq<Seq<char>>, case: CaseStyle)
    ensures
        clean_names_spec(names, case).len() == names.len(),
        clean_names_spec(names, case).no_duplicates(),
        forall|i: int|
            0 <= i < names.len() ==> #[trigger] clean_names_spec(names, case)[i].len() > 0,
{
    let bases = names.map_values(|n: Seq<char>| clean_one_spec(n, case));
    law_dedupe_distinct(bases, case);
    let out = clean_names_spec(names, case);
    assert forall|i: int| 0 <= i < names.len() implies #[trigger] out[i].len() > 0 by {
        lemma_clean_one_nonempty(names[i], case);
        assert(bases[i] == clean_one_spec(names[i], case));
        if out[i] != bases[i] {
            let k = choose|k: nat| k >= 2 && out[i] == with_suffix_spec(bases[i], k, case);
            lemma_with_suffix_shape(bases[i], k, case);
        }
    }
}


// ---------------------------------------------------------------------------
// Cleaning snake-case names again changes nothing
// ---------------------------------------------------------------------------

pub open spec fn is_snake_char(c: char) -> bool {
    is_lower(c) || is_digit(c) || c == '_'
}

/// `s` is the clean tokens `ts` joined with `_`, the first token not a number.
pub open spec fn snake_tokens_of(ts: Seq<Seq<char>>, s: Seq<char>) -> bool {
    &&& ts.len() > 0
    &&& all_clean_tokens(ts)
    &&& !is_digit(ts[0][0])
    &&& s == join(ts, seq!['_'])
}

/// A name in the shape that snake-case cleaning gives.
pub open spec fn is_snake_name(s: Seq<char>) -> bool {
    exists|ts: Seq<Seq<char>>| snake_tokens_of(ts, s)
}

proof fn lemma_join_snake_chars(ts: Seq<Seq<char>>)
    requires
        all_clean_tokens(ts),
    ensures
        forall|i: int|
            0 <= i < join(ts, seq!['_']).len() ==> is_snake_char(#[trigger] join(ts, seq!['_'])[i]),
    decreases ts.len(),
{
    let j = join(ts, seq!['_']);
    if ts.len() == 1 {
        assert(is_clean_token(ts[0]));
    } else if ts.len() > 1 {
        let r = ts.drop_last();
        assert(all_clean_tokens(r)) by {
            assert forall|k: int| 0 <= k < r.len() implies is_clean_token(#[trigger] r[k]) by {
                assert(r[k] == ts[k]);
            }
        }
        lemma_join_snake_chars(r);
        let jr = join(r, seq!['_']);
        assert(is_clean_token(ts.last()));
        assert forall|i: int| 0 <= i < j.len() implies is_snake_char(#[trigger] j[i]) by {
            if i < jr.len() {
                assert(j[i] == jr[i]);
            } else if i > jr.len() {
                assert(j[i] == ts.last()[i - jr.len() - 1]);
            }
        }
    }
}

proof fn lemma_join_cons(a: Seq<char>, ts: Seq<Seq<char>>, sep: Seq<char>)
    requires
        ts.len() >= 1,
    ensures
        join(seq![a] + ts, sep) == a + sep + join(ts, sep),
    decreases ts.len(),
{
    let all = seq![a] + ts;
    assert(all.len() == ts.len() + 1);
    assert(all.last() == ts.last());
    if ts.len() == 1 {
        assert(all.drop_last() =~= seq![a]);
        assert(join(seq![a], sep) == a);
        assert(join(ts, sep) == ts[0]);
        assert(join(all, sep) == join(all.drop_last(), sep) + sep + all.last());
    } else {
        lemma_join_cons(a, ts.drop_last(), sep);
        assert(all.drop_last() =~= seq![a] + ts.drop_last());
        assert(join(all, sep) == join(all.drop_last(), sep) + sep + all.last());
        assert(join(ts, sep) == join(ts.drop_last(), sep) + sep + ts.last());
        assert(join(all, sep) =~= a + sep + join(ts, sep));
    }
}

proof fn lemma_clean_one_snake(name: Seq<char>)
    ensures
        is_snake_name(clean_one_spec(name, CaseStyle::Snake)),
{
    lemma_base_tokens_clean(name);
    let ts = base_tokens(name);
    let sep = seq!['_'];
    let f = join(ts, sep);
    lemma_join_prefix(ts, sep);
    assert(is_clean_token(ts[0]));
    assert(f[0] == ts[0][0]);
    if is_digit(f[0]) {
        let x = seq!['x'];
        let xs = seq![x] + ts;
        lemma_join_cons(x, ts, sep);
        assert(identifier_start_spec(f, CaseStyle::Snake) =~= join(xs, sep));
        assert(all_clean_tokens(xs)) by {
            assert(forall|i: int| 0 <= i < x.len() ==> is_lower(#[trigger] x[i]));
            assert forall|k: int| 0 <= k < xs.len() implies is_clean_token(#[trigger] xs[k]) by {
                if k > 0 {
                    assert(xs[k] == ts[k - 1]);
                }
            }
        }
        assert(snake_tokens_of(xs, clean_one_spec(name, CaseStyle::Snake)));
    } else {
        assert(snake_tokens_of(ts, clean_one_spec(name, CaseStyle::Snake)));
    }
}

proof fn lemma_suffixed_snake(s: Seq<char>, k: nat)
    requires
        is_snake_name(s),
    ensures
        is_snake_name(with_suffix_spec(s, k, CaseStyle::Snake)),
{
    let ts = choose|ts: Seq<Seq<char>>| snake_tokens_of(ts, s);
    let d = decimal(k);
    lemma_decimal_digits(k);
    let us = ts.push(d);
    assert(us.drop_last() =~= ts);
    assert(is_clean_token(d));
    assert(all_clean_tokens(us)) by {
        assert forall|i: int| 0 <= i < us.len() implies is_clean_token(#[trigger] us[i]) by {
            if i < ts.len() {
                assert(us[i] == ts[i]);
            }
        }
    }
    assert(snake_tokens_of(us, with_suffix_spec(s, k, CaseStyle::Snake)));
}

proof fn lemma_tokens_prefix(s1: Seq<char>, s2: Seq<char>, n: nat)
    requires
        n <= s1.len(),
        n <= s2.len(),
        forall|i: int| 0 <= i < n ==> s1[i] == s2[i],
        forall|i: int| 0 <= i < n ==> !is_upper(#[trigger] s1[i]),
    ensures
        tokens_upto(s1, n) == tokens_upto(s2, n),
    decreases n,
{
    if n > 0 {
        lemma_tokens_prefix(s1, s2, (n - 1) as nat);
        let i = n - 1;
        if i > 0 {
            assert(!is_upper(s1[i - 1]));
            assert(token_boundary(s1[i - 1], s1[i], char_at(s1, i + 1)) == token_boundary(
                s2[i - 1],
                s2[i],
                char_at(s2, i + 1),
            ));
        }
        assert(starts_token(s1, i) == starts_token(s2, i));
    }
}

proof fn lemma_tokens_extend(p: Seq<char>, t: Seq<char>, m: nat)
    requires
        is_clean_token(t),
        1 <= m <= t.len(),
        p.len() == 0 || !is_alnum(p.last()),
        forall|i: int| 0 <= i < p.len() ==> !is_upper(#[trigger] p[i]),
    ensures
        tokens_upto(p + t, p.len() + m) == tokens_upto(p, p.len()).push(t.take(m as int)),
    decreases m,
{
    let s = p + t;
    let n = p.len() + m;
    let all_lower = forall|i: int| 0 <= i < t.len() ==> is_lower(#[trigger] t[i]);
    assert(forall|i: int| 0 <= i < t.len() ==> !is_upper(#[trigger] t[i]) && is_alnum(t[i])
        && to_lower(t[i]) == t[i]);
    if m == 1 {
        lemma_tokens_prefix(s, p, p.len());
        assert(s[p.len() as int] == t[0]);
        if p.len() > 0 {
            assert(s[p.len() - 1] == p.last());
        }
        assert(starts_token(s, p.len() as int));
        assert(t.take(1) =~= seq![to_lower(t[0])]);
    } else {
        lemma_tokens_extend(p, t, (m - 1) as nat);
        let i = n - 1;
        assert(s[i] == t[m - 1]);
        assert(s[i - 1] == t[m - 2]);
        assert(!token_boundary(s[i - 1], s[i], char_at(s, i + 1))) by {
            if all_lower {
                assert(is_lower(t[m - 1]) && is_lower(t[m - 2]));
            } else {
                assert(is_digit(t[m - 1]) && is_digit(t[m - 2]));
            }
        }
        assert(!starts_token(s, i));
        let prev = tokens_upto(p + t, (n - 1) as nat);
        assert(prev == tokens_upto(p, p.len()).push(t.take(m - 1)));
        assert(to_lower(s[i]) == t[m - 1]);
        assert(t.take(m - 1).push(t[m - 1]) =~= t.take(m as int));
        assert(tokens_upto(p + t, n) == prev.update(prev.len() - 1, prev.last().push(to_lower(s[i]))));
        assert(prev.update(prev.len() - 1, prev.last().push(to_lower(s[i]))) =~= tokens_upto(
            p,
            p.len(),
        ).push(t.take(m as int)));
    }
}

/// Tokenizing clean tokens joined with `_` gives the tokens back.
proof fn lemma_tokenize_join(ts: Seq<Seq<char>>)
    requires
        ts.len() > 0,
        all_clean_tokens(ts),
    ensures
        tokenize(join(ts, seq!['_'])) == ts,
    decreases ts.len(),
{
    let sep = seq!['_'];
    let t = ts.last();
    assert(is_clean_token(t));
    if ts.len() == 1 {
        let e = Seq::<char>::empty();
        lemma_tokens_extend(e, t, t.len());
        assert(e + t =~= t);
        assert(t.take(t.len() as int) =~= t);
        assert(ts =~= seq![t]);
    } else {
        let r = ts.drop_last();
        assert(all_clean_tokens(r)) by {
            assert forall|k: int| 0 <= k < r.len() implies is_clean_token(#[trigger] r[k]) by {
                assert(r[k] == ts[k]);
            }
        }
        lemma_tokenize_join(r);
        let jr = join(r, sep);
        lemma_join_snake_chars(r);
        let p = jr + sep;
        assert(join(ts, sep) == p + t);
        assert forall|i: int| 0 <= i < p.len() implies !is_upper(#[trigger] p[i]) by {
            if i < jr.len() {
                assert(is_snake_char(jr[i]));
            }
        }
        lemma_tokens_prefix(p, jr, jr.len());
        assert(tokens_upto(p, p.len()) == tokens_upto(p, jr.len()));
        lemma_tokens_extend(p, t, t.len());
        assert(t.take(t.len() as int) =~= t);
        assert(r.push(t) =~= ts);
    }
}

proof fn lemma_translate_snake(s: Seq<char>)
    requires
        forall|i: int| 0 <= i < s.len() ==> is_snake_char(#[trigger] s[i]),
    ensures
        translate(s) == s,
    decreases s.len(),
{
    if s.len() > 0 {
        lemma_translate_snake(s.drop_last());
        assert(is_snake_char(s.last()));
        assert(translate_char(s.last()) == seq![s.last()]);
        assert(s.drop_last().push(s.last()) =~= s);
    }
}

proof fn lemma_clean_snake_fixed(s: Seq<char>)
    requires
        is_snake_name(s),
    ensures
        all_ascii(s),
        clean_one_ascii_spec(s, CaseStyle::Snake) == s,
{
    let ts = choose|ts: Seq<Seq<char>>| snake_tokens_of(ts, s);
    lemma_join_snake_chars(ts);
    assert(forall|i: int| 0 <= i < s.len() ==> !is_white_space(#[trigger] s[i])) by {
        assert forall|i: int| 0 <= i < s.len() implies !is_white_space(#[trigger] s[i]) by {
            assert(is_snake_char(s[i]));
        }
    }
    lemma_trim_no_white_space(s);
    lemma_translate_snake(s);
    assert(all_ascii(s)) by {
        assert forall|i: int| 0 <= i < s.len() implies is_ascii_char(#[trigger] s[i]) by {
            assert(is_snake_char(s[i]));
        }
    }
    lemma_tokenize_join(ts);
    assert(ascii_name_tokens(s) == ts);
    lemma_join_prefix(ts, seq!['_']);
    assert(is_clean_token(ts[0]));
    assert(s[0] == ts[0][0]);
}

/// Cleaning names in snake case gives 7-bit ASCII names that cleaning in
/// snake case again leaves as they are. (For 7-bit ASCII names
/// `make_clean_names` gives `clean_ascii_names_spec`; so a second call on
/// its output returns that output.)
pub proof fn law_snake_clean_idempotent(names: Seq<Seq<char>>)
    ensures
        ({
            let out = clean_names_spec(names, CaseStyle::Snake);
            &&& forall|i: int| 0 <= i < out.len() ==> all_ascii(#[trigger] out[i])
            &&& clean_ascii_names_spec(out, CaseStyle::Snake) == out
        }),
{
    let case = CaseStyle::Snake;
    let bases = names.map_values(|n: Seq<char>| clean_one_spec(n, case));
    let out = clean_names_spec(names, case);
    law_dedupe_distinct(bases, case);
    assert forall|i: int| 0 <= i < out.len() implies is_snake_name(#[trigger] out[i]) by {
        lemma_clean_one_snake(names[i]);
        assert(bases[i] == clean_one_spec(names[i], case));
        if out[i] != bases[i] {
            let k = choose|k: nat| k >= 2 && out[i] == with_suffix_spec(bases[i], k, case);
            lemma_suffixed_snake(bases[i], k);
        }
    }
    let again = out.map_values(|n: Seq<char>| clean_one_ascii_spec(n, case));
    assert forall|i: int| 0 <= i < out.len() implies #[trigger] again[i] == out[i] && all_ascii(out[i]) by {
        lemma_clean_snake_fixed(out[i]);
    }
    assert(again =~= out);
    law_dedupe_keeps_distinct(out, case);
}

// ---------------------------------------------------------------------------
// Splitting at a separator
// ---------------------------------------------------------------------------

pub open spec fn lower_at(s: Seq<char>, i: int) -> bool {
    char_at(s, i) matches Some(c) && is_lower(c)
}

/// Two texts that agree on their first `n` characters, and on whether a
/// lower-case letter follows them, have the same tokens there.
proof fn lemma_tokens_agree(s1: Seq<char>, s2: Seq<char>, n: nat)
    requires
        n <= s1.len(),
        n <= s2.len(),
        forall|i: int| 0 <= i < n ==> s1[i] == s2[i],
        lower_at(s1, n as int) == lower_at(s2, n as int),
    ensures
        tokens_upto(s1, n) == tokens_upto(s2, n),
    decreases n,
{
    if n > 0 {
        let i = n - 1;
        assert(lower_at(s1, i) == lower_at(s2, i));
        lemma_tokens_agree(s1, s2, (n - 1) as nat);
        if i > 0 {
            assert(token_boundary(s1[i - 1], s1[i], char_at(s1, i + 1)) == token_boundary(
                s2[i - 1],
                s2[i],
                char_at(s2, i + 1),
            ));
        }
        assert(starts_token(s1, i) == starts_token(s2, i));
    }
}

/// After a character that is not a letter or digit, the tokens of what
/// follows are appended to the tokens before it.
proof fn lemma_tokens_after_separator(p: Seq<char>, b: Seq<char>, m: nat)
    requires
        p.len() > 0,
        !is_alnum(p.last()),
        m <= b.len(),
    ensures
        tokens_upto(p + b, p.len() + m) == tokens_upto(p, p.len()) + tokens_upto(b, m),
    decreases m,
{
    let s = p + b;
    if m == 0 {
        lemma_tokens_agree(s, p, (p.len() - 1) as nat);
        assert(s[p.len() - 1] == p.last());
        assert(tokens_upto(p, p.len()) + tokens_upto(b, 0) =~= tokens_upto(p, p.len()));
    } else {
        lemma_tokens_after_separator(p, b, (m - 1) as nat);
        let i = p.len() + m - 1;
        let j = m - 1;
        let x = tokens_upto(p, p.len());
        let y = tokens_upto(b, (m - 1) as nat);
        assert(s[i] == b[j]);
        assert(char_at(s, i + 1) == char_at(b, j + 1));
        if j > 0 {
            assert(s[i - 1] == b[j - 1]);
        } else {
            assert(s[i - 1] == p.last());
        }
        assert(starts_token(s, i) == starts_token(b, j));
        if is_alnum(b[j]) && !starts_token(b, j) {
            lemma_tokens_upto_clean(b, (m - 1) as nat);
            assert(j > 0 && is_alnum(b[j - 1]));
            assert(y.len() > 0);
            assert((x + y).update((x + y).len() - 1, (x + y).last().push(to_lower(b[j]))) =~= x + y.update(
                y.len() - 1,
                y.last().push(to_lower(b[j])),
            ));
        } else if is_alnum(b[j]) {
            assert((x + y).push(seq![to_lower(b[j])]) =~= x + y.push(seq![to_lower(b[j])]));
        }
    }
}

/// A character that is neither an ASCII letter nor an ASCII digit splits
/// the tokens: the tokens of `a`, the separator and `b` are the tokens of
/// `a` followed by those of `b`.
pub proof fn law_tokenize_split(a: Seq<char>, sep: char, b: Seq<char>)
    requires
        !is_alnum(sep),
    ensures
        tokenize(a + seq![sep] + b) == tokenize(a) + tokenize(b),
{
    let p = a + seq![sep];
    assert(p.last() == sep);
    lemma_tokens_after_separator(p, b, b.len());
    assert(a + seq![sep] + b == p + b);
    lemma_tokens_agree(p, a, a.len());
    assert(tokens_upto(p, p.len()) == tokens_upto(p, a.len()));
}


// ---------------------------------------------------------------------------
// The case styles of the same names
// ---------------------------------------------------------------------------

/// Telling duplicates apart commutes with a renaming `f` that is one-to-one
/// on a set of names `dom` that holds the names and their suffixed forms,
/// and that carries the suffixes of style `s1` to those of style `s2`.
proof fn lemma_dedupe_map(
    names: Seq<Seq<char>>,
    s1: CaseStyle,
    s2: CaseStyle,
    f: spec_fn(Seq<char>) -> Seq<char>,
    dom: spec_fn(Seq<char>) -> bool,
)
    requires
        forall|i: int| 0 <= i < names.len() ==> dom(#[trigger] names[i]),
        forall|n: Seq<char>, k: nat| dom(n) ==> dom(#[trigger] with_suffix_spec(n, k, s1)),
        forall|a: Seq<char>, b: Seq<char>| dom(a) && dom(b) && #[trigger] f(a) == #[trigger] f(b) ==> a == b,
        forall|n: Seq<char>, k: nat|
            dom(n) ==> f(#[trigger] with_suffix_spec(n, k, s1)) == with_suffix_spec(f(n), k, s2),
    ensures
        ({
            let st1 = dedupe_state(names, s1);
            let st2 = dedupe_state(names.map_values(f), s2);
            &&& st2.0 == st1.0.map_values(f)
            &&& forall|i: int| 0 <= i < st1.0.len() ==> dom(#[trigger] st1.0[i])
            &&& forall|n: Seq<char>|
                dom(n) ==> (#[trigger] st1.1.dom().contains(n) <==> st2.1.dom().contains(f(n)))
            &&& forall|n: Seq<char>| dom(n) && #[trigger] st1.1.dom().contains(n) ==> st2.1[f(n)] == st1.1[n]
        }),
    decreases names.len(),
{
    law_dedupe_distinct(names, s1);
    let mapped = names.map_values(f);
    if names.len() == 0 {
        assert(dedupe_state(mapped, s2).0 =~= dedupe_state(names, s1).0.map_values(f));
    } else {
        let d = names.drop_last();
        let x = names.last();
        assert(mapped.drop_last() =~= d.map_values(f));
        assert(mapped.last() == f(x));
        assert(dom(x)) by {
            assert(dom(names[names.len() - 1]));
        }
        assert forall|i: int| 0 <= i < d.len() implies dom(#[trigger] d[i]) by {
            assert(d[i] == names[i]);
        }
        lemma_dedupe_map(d, s1, s2, f, dom);
        law_dedupe_distinct(d, s1);
        let p1 = dedupe_state(d, s1);
        let p2 = dedupe_state(d.map_values(f), s2);
        let start = if p1.1.dom().contains(x) {
            p1.1[x]
        } else {
            2
        };
        let start2 = if p2.1.dom().contains(f(x)) {
            p2.1[f(x)]
        } else {
            2
        };
        assert(start == start2);
        let u1 = p1.0.to_set();
        let u2 = p2.0.to_set();
        vstd::seq_lib::seq_to_set_is_finite(p1.0);
        vstd::seq_lib::seq_to_set_is_finite(p2.0);
        assert forall|y: Seq<char>| dom(y) implies (u2.contains(f(y)) <==> u1.contains(y)) by {
            if u1.contains(y) {
                assert(p1.0.contains(y));
                let i = choose|i: int| 0 <= i < p1.0.len() && p1.0[i] == y;
                assert(p2.0[i] == f(y));
                assert(p2.0.contains(f(y)));
            }
            if u2.contains(f(y)) {
                assert(p2.0.contains(f(y)));
                let i = choose|i: int| 0 <= i < p2.0.len() && p2.0[i] == f(y);
                assert(p2.0[i] == f(p1.0[i]));
                assert(dom(p1.0[i]));
                assert(p1.0[i] == y);
                assert(p1.0.contains(y));
            }
        }
        let pk1 = pick_name(u1, x, s1, start);
        let pk2 = pick_name(u2, f(x), s2, start);
        if u1.contains(x) {
            lemma_first_free_exists(u1, x, s1, start);
            lemma_first_free_exists(u2, f(x), s2, start);
            let k1 = first_free(u1, x, s1, start);
            let k2 = first_free(u2, f(x), s2, start);
            assert forall|j: nat|
                u2.contains(#[trigger] with_suffix_spec(f(x), j, s2)) == u1.contains(
                    with_suffix_spec(x, j, s1),
                ) by {
                assert(f(with_suffix_spec(x, j, s1)) == with_suffix_spec(f(x), j, s2));
                assert(dom(with_suffix_spec(x, j, s1)));
            }
            if k1 < k2 {
                assert(u2.contains(with_suffix_spec(f(x), k1, s2)));
            }
            if k2 < k1 {
                assert(u1.contains(with_suffix_spec(x, k2, s1)));
            }
            assert(k1 == k2);
            assert(pk2.0 == f(pk1.0));
        }
        assert(pk2 == (f(pk1.0), pk1.1));
        let st1 = dedupe_state(names, s1);
        let st2 = dedupe_state(mapped, s2);
        assert(st1.0 == p1.0.push(pk1.0));
        assert(st2.0 == p2.0.push(pk2.0));
        assert(st2.0 =~= st1.0.map_values(f));
        assert(dom(pk1.0));
        assert forall|i: int| 0 <= i < st1.0.len() implies dom(#[trigger] st1.0[i]) by {
            if i < p1.0.len() {
                assert(st1.0[i] == p1.0[i]);
            }
        }
        assert forall|n: Seq<char>| dom(n) implies (#[trigger] st1.1.dom().contains(n) <==> st2.1.dom().contains(
            f(n),
        )) by {
            if f(n) == f(x) {
                assert(n == x);
            }
        }
        assert forall|n: Seq<char>| dom(n) && #[trigger] st1.1.dom().contains(n) implies st2.1[f(n)] == st1.1[n] by {
            if f(n) == f(x) {
                assert(n == x);
            }
        }
    }
}

proof fn lemma_concat_first(ts: Seq<Seq<char>>)
    requires
        ts.len() >= 1,
    ensures
        concat(ts) == ts[0] + concat(ts.skip(1)),
    decreases ts.len(),
{
    if ts.len() == 1 {
        assert(ts.drop_last() =~= Seq::<Seq<char>>::empty());
        assert(ts.skip(1) =~= Seq::<Seq<char>>::empty());
        assert(concat(ts) =~= ts[0] + concat(ts.skip(1)));
    } else {
        let d = ts.drop_last();
        lemma_concat_first(d);
        assert(d.skip(1) =~= ts.skip(1).drop_last());
        assert(ts.skip(1).last() == ts.last());
        assert(concat(ts) =~= ts[0] + concat(ts.skip(1)));
    }
}

pub open spec fn all_snake_chars(s: Seq<char>) -> bool {
    forall|i: int| 0 <= i < s.len() ==> is_snake_char(#[trigger] s[i])
}

pub open spec fn lower_first(s: Seq<char>) -> bool {
    s.len() > 0 && is_lower(s[0])
}

/// The pascal spelling of a name is its camel spelling capitalized, and the
/// camel spelling starts with a lower-case letter.
proof fn lemma_pascal_camel_base(name: Seq<char>)
    ensures
        lower_first(clean_one_spec(name, CaseStyle::Camel)),
        clean_one_spec(name, CaseStyle::Pascal) == capitalize(clean_one_spec(name, CaseStyle::Camel)),
{
    lemma_base_tokens_clean(name);
    let ts = base_tokens(name);
    let t0 = ts[0];
    assert(is_clean_token(t0));
    assert(is_lower(t0[0]) || is_digit(t0[0]));
    let rest = concat(ts.skip(1).map_values(|t: Seq<char>| capitalize(t)));
    let fc = t0 + rest;
    let caps = ts.map_values(|t: Seq<char>| capitalize(t));
    lemma_concat_first(caps);
    assert(caps.skip(1) =~= ts.skip(1).map_values(|t: Seq<char>| capitalize(t)));
    let fp = concat(caps);
    assert(fp == capitalize(t0) + rest);
    assert(fc[0] == t0[0]);
    assert(fp =~= capitalize(fc));
    assert(format_tokens_spec(ts, CaseStyle::Camel) == fc);
    assert(format_tokens_spec(ts, CaseStyle::Pascal) == fp);
    assert(fp[0] == to_upper(t0[0]));
    if is_digit(t0[0]) {
        assert(fp =~= fc);
        let c = seq!['x'] + fc;
        assert(clean_one_spec(name, CaseStyle::Camel) == c);
        assert(clean_one_spec(name, CaseStyle::Pascal) == seq!['X'] + fp);
        assert(to_upper('x') == 'X');
        assert(capitalize(c) =~= seq!['X'] + fc);
    } else {
        assert(!is_digit(to_upper(t0[0])));
    }
}

/// The constant spelling of a name is its snake spelling upper-cased, and
/// the snake spelling is made of lower-case letters, digits and `_`.
proof fn lemma_constant_snake_base(name: Seq<char>)
    ensures
        all_snake_chars(clean_one_spec(name, CaseStyle::Snake)),
        clean_one_spec(name, CaseStyle::Constant) == upper_all(clean_one_spec(name, CaseStyle::Snake)),
{
    lemma_clean_one_snake(name);
    let sn = clean_one_spec(name, CaseStyle::Snake);
    let us = choose|us: Seq<Seq<char>>| snake_tokens_of(us, sn);
    lemma_join_snake_chars(us);
    lemma_base_tokens_clean(name);
    let ts = base_tokens(name);
    let j = join(ts, seq!['_']);
    lemma_join_prefix(ts, seq!['_']);
    assert(is_clean_token(ts[0]));
    assert(j[0] == ts[0][0]);
    assert(format_tokens_spec(ts, CaseStyle::Snake) == j);
    assert(format_tokens_spec(ts, CaseStyle::Constant) == upper_all(j));
    assert(upper_all(j)[0] == to_upper(j[0]));
    if is_digit(j[0]) {
        assert(to_upper('x') == 'X');
        assert(to_upper('_') == '_');
        assert(upper_all(seq!['x', '_'] + j) =~= seq!['X', '_'] + upper_all(j));
    } else {
        assert(!is_digit(to_upper(j[0])));
    }
}

/// Upper-casing is one-to-one on text of lower-case letters, digits and `_`.
proof fn lemma_upper_all_injective(a: Seq<char>, b: Seq<char>)
    requires
        all_snake_chars(a),
        all_snake_chars(b),
        upper_all(a) == upper_all(b),
    ensures
        a == b,
{
    assert(a.len() == upper_all(a).len());
    assert(b.len() == upper_all(b).len());
    assert forall|i: int| 0 <= i < a.len() implies a[i] == b[i] by {
        assert(upper_all(a)[i] == upper_all(b)[i]);
        assert(is_snake_char(a[i]) && is_snake_char(b[i]));
        let x = a[i];
        let y = b[i];
        assert(upper_all(a)[i] == to_upper(x));
        assert(upper_all(b)[i] == to_upper(y));
        if is_lower(x) && is_lower(y) {
            assert((to_upper(x) as u32) == (x as u32) - 32);
            assert((to_upper(y) as u32) == (y as u32) - 32);
        }
    }
    assert(a =~= b);
}

/// Capitalizing is one-to-one on text that starts with a lower-case letter.
proof fn lemma_capitalize_injective(a: Seq<char>, b: Seq<char>)
    requires
        lower_first(a),
        lower_first(b),
        capitalize(a) == capitalize(b),
    ensures
        a == b,
{
    assert(capitalize(a).len() == a.len());
    assert(capitalize(b).len() == b.len());
    assert(capitalize(a)[0] == to_upper(a[0]));
    assert(capitalize(b)[0] == to_upper(b[0]));
    assert forall|i: int| 0 <= i < a.len() implies a[i] == b[i] by {
        assert(capitalize(a)[i] == capitalize(b)[i]);
        if i > 0 {
            assert(capitalize(a)[i] == a[i]);
            assert(capitalize(b)[i] == b[i]);
        }
    }
    assert(a =~= b);
}

/// The four case styles spell the same cleaned names: the constant style
/// gives the snake-case names upper-cased, and the pascal style gives the
/// camel-case names with their first letter upper-cased.
pub proof fn law_case_styles_agree(names: Seq<Seq<char>>)
    ensures
        clean_names_spec(names, CaseStyle::Constant) == clean_names_spec(names, CaseStyle::Snake).map_values(
            |s: Seq<char>| upper_all(s),
        ),
        clean_names_spec(names, CaseStyle::Pascal) == clean_names_spec(names, CaseStyle::Camel).map_values(
            |s: Seq<char>| capitalize(s),
        ),
{
    let up = |s: Seq<char>| upper_all(s);
    let cap = |s: Seq<char>| capitalize(s);
    let snake_dom = |s: Seq<char>| all_snake_chars(s);
    let camel_dom = |s: Seq<char>| lower_first(s);

    let sb = names.map_values(|n: Seq<char>| clean_one_spec(n, CaseStyle::Snake));
    let cb = names.map_values(|n: Seq<char>| clean_one_spec(n, CaseStyle::Constant));
    assert forall|i: int| 0 <= i < names.len() implies snake_dom(#[trigger] sb[i]) && cb[i] == up(sb[i]) by {
        lemma_constant_snake_base(names[i]);
    }
    assert(cb =~= sb.map_values(up));
    assert forall|n: Seq<char>, k: nat| snake_dom(n) implies snake_dom(
        #[trigger] with_suffix_spec(n, k, CaseStyle::Snake),
    ) && up(with_suffix_spec(n, k, CaseStyle::Snake)) == with_suffix_spec(up(n), k, CaseStyle::Constant) by {
        lemma_decimal_digits(k);
        let w = with_suffix_spec(n, k, CaseStyle::Snake);
        let d = decimal(k);
        assert(w == n + seq!['_'] + d);
        assert forall|i: int| 0 <= i < w.len() implies is_snake_char(#[trigger] w[i]) by {
            if i < n.len() {
                assert(w[i] == n[i]);
            } else if i > n.len() {
                assert(w[i] == d[i - n.len() - 1]);
            }
        }
        assert(to_upper('_') == '_');
        assert(upper_all(w) =~= upper_all(n) + seq!['_'] + d) by {
            assert forall|i: int| 0 <= i < w.len() implies #[trigger] upper_all(w)[i] == (upper_all(n) + seq!['_']
                + d)[i] by {
                if i > n.len() {
                    assert(w[i] == d[i - n.len() - 1]);
                    assert(is_digit(d[i - n.len() - 1]));
                }
            }
        }
    }
    assert forall|a: Seq<char>, b: Seq<char>| snake_dom(a) && snake_dom(b) && #[trigger] up(a) == #[trigger] up(
        b,
    ) implies a == b by {
        lemma_upper_all_injective(a, b);
    }
    lemma_dedupe_map(sb, CaseStyle::Snake, CaseStyle::Constant, up, snake_dom);

    let kb = names.map_values(|n: Seq<char>| clean_one_spec(n, CaseStyle::Camel));
    let pb = names.map_values(|n: Seq<char>| clean_one_spec(n, CaseStyle::Pascal));
    assert forall|i: int| 0 <= i < names.len() implies camel_dom(#[trigger] kb[i]) && pb[i] == cap(kb[i]) by {
        lemma_pascal_camel_base(names[i]);
    }
    assert(pb =~= kb.map_values(cap));
    assert forall|n: Seq<char>, k: nat| camel_dom(n) implies camel_dom(
        #[trigger] with_suffix_spec(n, k, CaseStyle::Camel),
    ) && cap(with_suffix_spec(n, k, CaseStyle::Camel)) == with_suffix_spec(cap(n), k, CaseStyle::Pascal) by {
        let w = with_suffix_spec(n, k, CaseStyle::Camel);
        assert(w == n + decimal(k));
        assert(w[0] == n[0]);
        assert(capitalize(w) =~= capitalize(n) + decimal(k));
    }
    assert forall|a: Seq<char>, b: Seq<char>| camel_dom(a) && camel_dom(b) && #[trigger] cap(a) == #[trigger] cap(
        b,
    ) implies a == b by {
        lemma_capitalize_injective(a, b);
    }
    lemma_dedupe_map(kb, CaseStyle::Camel, CaseStyle::Pascal, cap, camel_dom);
}

} // verus!
verus! {

/// The letters and symbols that cleaning spells out before it splits a
/// name, each with its spelling: `ß` `ss`, `ẞ` `SS`, `æ` `ae`, `Æ` `AE`,
/// `œ` `oe`, `Œ` `OE`, `ø` `o`, `Ø` `O`, `ð` `d`, `Ð` `D`, `þ` `th`,
/// `Þ` `Th`, `ł` `l`, `Ł` `L`, `%` ` percent `, `#` ` number `, `&` ` and `,
/// `@` ` at `, `+` ` plus `; every other character is kept as it is, and a
/// text is spelled out character by character.
pub proof fn law_spelled_out_characters(c: char, a: Seq<char>, b: Seq<char>)
    ensures
        translate(seq!['\u{df}']) == seq!['s', 's'],
        translate(seq!['\u{1e9e}']) == seq!['S', 'S'],
        translate(seq!['\u{e6}']) == seq!['a', 'e'],
        translate(seq!['\u{c6}']) == seq!['A', 'E'],
        translate(seq!['\u{153}']) == seq!['o', 'e'],
        translate(seq!['\u{152}']) == seq!['O', 'E'],
        translate(seq!['\u{f8}']) == seq!['o'],
        translate(seq!['\u{d8}']) == seq!['O'],
        translate(seq!['\u{f0}']) == seq!['d'],
        translate(seq!['\u{d0}']) == seq!['D'],
        translate(seq!['\u{fe}']) == seq!['t', 'h'],
        translate(seq!['\u{de}']) == seq!['T', 'h'],
        translate(seq!['\u{142}']) == seq!['l'],
        translate(seq!['\u{141}']) == seq!['L'],
        translate(seq!['%']) == seq![' ', 'p', 'e', 'r', 'c', 'e', 'n', 't', ' '],
        translate(seq!['#']) == seq![' ', 'n', 'u', 'm', 'b', 'e', 'r', ' '],
        translate(seq!['&']) == seq![' ', 'a', 'n', 'd', ' '],
        translate(seq!['@']) == seq![' ', 'a', 't', ' '],
        translate(seq!['+']) == seq![' ', 'p', 'l', 'u', 's', ' '],
        !(c == '\u{df}' || c == '\u{1e9e}' || c == '\u{e6}' || c == '\u{c6}' || c == '\u{153}' || c
            == '\u{152}' || c == '\u{f8}' || c == '\u{d8}' || c == '\u{f0}' || c == '\u{d0}' || c
            == '\u{fe}' || c == '\u{de}' || c == '\u{142}' || c == '\u{141}' || c == '%' || c == '#'
            || c == '&' || c == '@' || c == '+') ==> translate(seq![c]) == seq![c],
        translate(a + b) == translate(a) + translate(b),
    decreases b.len(),
{
    assert forall|x: char| #[trigger] translate(seq![x]) == translate_char(x) by {
        assert(seq![x].drop_last() =~= Seq::<char>::empty());
        assert(seq![x].last() == x);
        assert(translate(Seq::<char>::empty()) == Seq::<char>::empty());
        assert(Seq::<char>::empty() + translate_char(x) =~= translate_char(x));
    }
    if b.len() == 0 {
        assert(a + b =~= a);
        assert(translate(a) + translate(b) =~= translate(a));
    } else {
        law_spelled_out_characters(c, a, b.drop_last());
        assert((a + b).drop_last() =~= a + b.drop_last());
        assert((a + b).last() == b.last());
    }
}

/// Every spelled-out letter becomes one or two ASCII letters, so it stays
/// part of the token it stands in (`Længde` gives `Laengde`) instead of
/// separating tokens.
pub proof fn law_spelled_letters_are_ascii(c: char)
    requires
        c == '\u{df}' || c == '\u{1e9e}' || c == '\u{e6}' || c == '\u{c6}' || c == '\u{153}' || c
            == '\u{152}' || c == '\u{f8}' || c == '\u{d8}' || c == '\u{f0}' || c == '\u{d0}' || c
            == '\u{fe}' || c == '\u{de}' || c == '\u{142}' || c == '\u{141}',
    ensures
        translate_char(c).len() > 0,
        forall|i: int| 0 <= i < translate_char(c).len() ==> crate::text::is_alpha(#[trigger] translate_char(c)[i]),
{
}

} // verus!
verus! {

/// How a cleaned name is completed in each case style: a name starting
/// with a digit gets `x_` (snake), `x` (camel), `X` (pascal) or `X_`
/// (constant) in front, and the `k`-th duplicate of a name gets `_k`
/// (snake, constant) or `k` (camel, pascal) appended.
pub proof fn law_name_completions(name: Seq<char>, k: nat)
    ensures
        name.len() > 0 && is_digit(name[0]) ==> identifier_start_spec(name, CaseStyle::Snake) == seq!['x', '_'] + name
            && identifier_start_spec(name, CaseStyle::Camel) == seq!['x'] + name && identifier_start_spec(
            name,
            CaseStyle::Pascal,
        ) == seq!['X'] + name && identifier_start_spec(name, CaseStyle::Constant) == seq!['X', '_'] + name,
        !(name.len() > 0 && is_digit(name[0])) ==> forall|c: CaseStyle| #[trigger] identifier_start_spec(name, c) == name,
        with_suffix_spec(name, k, CaseStyle::Snake) == name + seq!['_'] + decimal(k),
        with_suffix_spec(name, k, CaseStyle::Constant) == name + seq!['_'] + decimal(k),
        with_suffix_spec(name, k, CaseStyle::Camel) == name + decimal(k),
        with_suffix_spec(name, k, CaseStyle::Pascal) == name + decimal(k),
{
}

} // verus!
