use vstd::prelude::*;
use vstd::string::StrSliceExecFns;

verus! {

/// The whitespace that separates a source identifier from its category
/// label: the Unicode white-space characters, the set a whitespace split of
/// the standard library goes by.
pub open spec fn is_space(c: char) -> bool {
    let u = c as u32;
    ||| u == 0x20
    ||| 0x09 <= u <= 0x0d
    ||| u == 0x85
    ||| u == 0xa0
    ||| u == 0x1680
    ||| 0x2000 <= u <= 0x200a
    ||| u == 0x2028
    ||| u == 0x2029
    ||| u == 0x202f
    ||| u == 0x205f
    ||| u == 0x3000
}

/// Executable side of the whitespace test.
fn is_space_char(c: char) -> (r: bool)
    ensures
        r == is_space(c),
{
    let u = c as u32;
    u == 0x20 || (0x09 <= u && u <= 0x0d) || u == 0x85 || u == 0xa0 || u == 0x1680 || (0x2000 <= u
        && u <= 0x200a) || u == 0x2028 || u == 0x2029 || u == 0x202f || u == 0x205f || u == 0x3000
}

/// A sequence without its leading whitespace.
pub open spec fn skip_spaces(s: Seq<char>) -> Seq<char>
    decreases s.len(),
{
    if s.len() > 0 && is_space(s.first()) {
        skip_spaces(s.drop_first())
    } else {
        s
    }
}

/// The longest whitespace-free prefix of a sequence.
pub open spec fn token_of(s: Seq<char>) -> Seq<char>
    decreases s.len(),
{
    if s.len() > 0 && !is_space(s.first()) {
        seq![s.first()] + token_of(s.drop_first())
    } else {
        Seq::empty()
    }
}

/// The first whitespace-separated token of a line: the source identifier.
pub open spec fn first_token(s: Seq<char>) -> Seq<char> {
    token_of(skip_spaces(s))
}

/// What is left of the line once the first token is consumed.
pub open spec fn rest_after_first(s: Seq<char>) -> Seq<char> {
    skip_spaces(s).skip(first_token(s).len() as int)
}

/// The second whitespace-separated token of a line: the category label,
/// empty when the line has none.
pub open spec fn second_token(s: Seq<char>) -> Seq<char> {
    token_of(skip_spaces(rest_after_first(s)))
}

proof fn lemma_skip_spaces_at(s: Seq<char>, i: int)
    requires
        0 <= i <= s.len(),
        forall|j: int| 0 <= j < i ==> is_space(s[j]),
        i < s.len() ==> !is_space(s[i]),
    ensures
        skip_spaces(s) == s.skip(i),
    decreases i,
{
    if i == 0 {
        assert(s.skip(0) =~= s);
    } else {
        assert(is_space(s.first()));
        let rest = s.drop_first();
        assert(forall|j: int| 0 <= j < i - 1 ==> is_space(rest[j]));
        lemma_skip_spaces_at(rest, i - 1);
        assert(rest.skip(i - 1) =~= s.skip(i));
    }
}

proof fn lemma_token_of_at(s: Seq<char>, j: int)
    requires
        0 <= j <= s.len(),
        forall|k: int| 0 <= k < j ==> !is_space(s[k]),
        j < s.len() ==> is_space(s[j]),
    ensures
        token_of(s) == s.subrange(0, j),
    decreases j,
{
    if j == 0 {
        assert(s.subrange(0, 0) =~= Seq::<char>::empty());
    } else {
        assert(!is_space(s.first()));
        let rest = s.drop_first();
        assert(forall|k: int| 0 <= k < j - 1 ==> !is_space(rest[k]));
        lemma_token_of_at(rest, j - 1);
        assert(seq![s.first()] + rest.subrange(0, j - 1) =~= s.subrange(0, j));
    }
}

/// Finds the first index at or past `from` holding a non-space character, or
/// the line's length when only whitespace remains.
fn scan_past_spaces(s: &str, from: usize) -> (r: usize)
    requires
        from <= s@.len(),
    ensures
        from <= r <= s@.len(),
        forall|j: int| from <= j < r ==> is_space(s@[j]),
        r < s@.len() ==> !is_space(s@[r as int]),
{
    let n = s.unicode_len();
    let mut i: usize = from;
    while i < n
        invariant
            from <= i <= n,
            n == s@.len(),
            forall|j: int| from <= j < i ==> is_space(s@[j]),
        decreases n - i,
    {
        let c = s.get_char(i);
        if !is_space_char(c) {
            return i;
        }
        i = i + 1;
    }
    i
}

/// Finds the first index at or past `from` holding a space, or the line's
/// length when the token runs to the end.
fn scan_token(s: &str, from: usize) -> (r: usize)
    requires
        from <= s@.len(),
    ensures
        from <= r <= s@.len(),
        forall|j: int| from <= j < r ==> !is_space(s@[j]),
        r < s@.len() ==> is_space(s@[r as int]),
{
    let n = s.unicode_len();
    let mut i: usize = from;
    while i < n
        invariant
            from <= i <= n,
            n == s@.len(),
            forall|j: int| from <= j < i ==> !is_space(s@[j]),
        decreases n - i,
    {
        let c = s.get_char(i);
        if is_space_char(c) {
            return i;
        }
        i = i + 1;
    }
    i
}

/// Splits a config line into the source identifier and, when present, its
/// category label: the first and second whitespace-separated tokens; any
/// further text on the line is ignored.
pub fn get_categories(line: String) -> (r: (String, Option<String>))
    requires
        first_token(line@).len() > 0,
    ensures
        r.0@ == first_token(line@),
        match r.1 {
            None => second_token(line@).len() == 0,
            Some(c) => second_token(line@).len() > 0 && c@ == second_token(line@),
        },
{
    let s = line.as_str();
    let a = scan_past_spaces(s, 0);
    proof {
        lemma_skip_spaces_at(line@, a as int);
    }
    let b = scan_token(s, a);
    proof {
        let t = line@.skip(a as int);
        assert(forall|k: int| 0 <= k < b - a ==> !is_space(t[k]));
        lemma_token_of_at(t, b - a);
        assert(t.subrange(0, b - a) =~= line@.subrange(a as int, b as int));
        assert(first_token(line@) == line@.subrange(a as int, b as int));
        assert(t.skip(b - a) =~= line@.skip(b as int));
    }
    let tok1 = s.substring_char(a, b).to_owned();
    let c = scan_past_spaces(s, b);
    proof {
        let u = line@.skip(b as int);
        assert(forall|k: int| 0 <= k < c - b ==> is_space(u[k]));
        lemma_skip_spaces_at(u, c - b);
        assert(u.skip(c - b) =~= line@.skip(c as int));
    }
    let d = scan_token(s, c);
    proof {
        let v = line@.skip(c as int);
        assert(forall|k: int| 0 <= k < d - c ==> !is_space(v[k]));
        lemma_token_of_at(v, d - c);
        assert(v.subrange(0, d - c) =~= line@.subrange(c as int, d as int));
        assert(second_token(line@) == line@.subrange(c as int, d as int));
    }
    if c == d {
        (tok1, None)
    } else {
        let tok2 = s.substring_char(c, d).to_owned();
        (tok1, Some(tok2))
    }
}

/// Whether a config line takes part in grouping: non-empty and not a comment.
pub open spec fn line_included(l: Seq<char>) -> bool {
    l.len() > 0 && l.first() != '#'
}

/// The group that sources without a label fall into.
pub open spec fn no_category() -> Seq<char> {
    "no category"@
}

/// The group a config line's source belongs to.
pub open spec fn line_key(l: Seq<char>) -> Seq<char> {
    if second_token(l).len() == 0 {
        no_category()
    } else {
        second_token(l)
    }
}

/// Every line that takes part in grouping names a source: the panic-free
/// precondition of the splitter, lifted over a whole config.
pub open spec fn lines_ok(lines: Seq<Seq<char>>) -> bool {
    forall|i: int|
        0 <= i < lines.len() ==> (line_included(lines[i]) ==> first_token(lines[i]).len() > 0)
}

/// Adds one source to its group: the first group with this key gains the
/// source at the end of its list, and a missing key opens a new group at the
/// end, keeping insertion order.
pub open spec fn spec_upsert(
    groups: Seq<(Seq<char>, Seq<Seq<char>>)>,
    key: Seq<char>,
    url: Seq<char>,
) -> Seq<(Seq<char>, Seq<Seq<char>>)>
    decreases groups.len(),
{
    if groups.len() == 0 {
        seq![(key, seq![url])]
    } else if groups.first().0 == key {
        seq![(groups.first().0, groups.first().1.push(url))] + groups.drop_first()
    } else {
        seq![groups.first()] + spec_upsert(groups.drop_first(), key, url)
    }
}

/// The whole grouping of a config: comments and blank lines dropped, every
/// other line's source appended to the group its label names.
pub open spec fn spec_group_lines(lines: Seq<Seq<char>>) -> Seq<(Seq<char>, Seq<Seq<char>>)>
    decreases lines.len(),
{
    if lines.len() == 0 {
        Seq::empty()
    } else {
        let prev = spec_group_lines(lines.drop_last());
        let l = lines.last();
        if line_included(l) {
            spec_upsert(prev, line_key(l), first_token(l))
        } else {
            prev
        }
    }
}

/// Groups whose category stands in the wanted set, in their original order.
pub open spec fn spec_filter(
    groups: Seq<(Seq<char>, Seq<Seq<char>>)>,
    cats: Seq<Seq<char>>,
) -> Seq<(Seq<char>, Seq<Seq<char>>)>
    decreases groups.len(),
{
    if groups.len() == 0 {
        Seq::empty()
    } else {
        let rest = spec_filter(groups.drop_first(), cats);
        if cats.contains(groups.first().0) {
            seq![groups.first()] + rest
        } else {
            rest
        }
    }
}

/// The mathematical value of grouped sources.
pub open spec fn groups_view(g: Seq<(String, Vec<String>)>) -> Seq<(Seq<char>, Seq<Seq<char>>)> {
    g.map_values(|p: (String, Vec<String>)| (p.0@, p.1@.map_values(|u: String| u@)))
}

proof fn lemma_upsert_found(
    g: Seq<(Seq<char>, Seq<Seq<char>>)>,
    key: Seq<char>,
    url: Seq<char>,
    i: int,
)
    requires
        0 <= i < g.len(),
        g[i].0 == key,
        forall|j: int| 0 <= j < i ==> g[j].0 != key,
    ensures
        spec_upsert(g, key, url) == g.update(i, (g[i].0, g[i].1.push(url))),
    decreases i,
{
    if i == 0 {
        assert(seq![(g.first().0, g.first().1.push(url))] + g.drop_first() =~= g.update(
            0,
            (g[0].0, g[0].1.push(url)),
        ));
    } else {
        let rest = g.drop_first();
        assert(forall|j: int| 0 <= j < i - 1 ==> rest[j].0 != key);
        lemma_upsert_found(rest, key, url, i - 1);
        assert(seq![g.first()] + rest.update(i - 1, (rest[i - 1].0, rest[i - 1].1.push(url)))
            =~= g.update(i, (g[i].0, g[i].1.push(url))));
    }
}

proof fn lemma_upsert_absent(g: Seq<(Seq<char>, Seq<Seq<char>>)>, key: Seq<char>, url: Seq<char>)
    requires
        forall|j: int| 0 <= j < g.len() ==> g[j].0 != key,
    ensures
        spec_upsert(g, key, url) == g.push((key, seq![url])),
    decreases g.len(),
{
    if g.len() == 0 {
        assert(seq![(key, seq![url])] =~= g.push((key, seq![url])));
    } else {
        assert(g.first().0 != key);
        let rest = g.drop_first();
        assert(forall|j: int| 0 <= j < rest.len() ==> rest[j].0 != key);
        lemma_upsert_absent(rest, key, url);
        assert(seq![g.first()] + rest.push((key, seq![url])) =~= g.push((key, seq![url])));
    }
}

/// The first group with this category, or the group count when none has it.
fn find_key(groups: &Vec<(String, Vec<String>)>, key: &String) -> (r: usize)
    ensures
        r <= groups@.len(),
        forall|j: int| 0 <= j < r ==> (#[trigger] groups@[j]).0@ != key@,
        r < groups@.len() ==> groups@[r as int].0@ == key@,
{
    let mut i: usize = 0;
    while i < groups.len()
        invariant
            0 <= i <= groups@.len(),
            forall|j: int| 0 <= j < i ==> (#[trigger] groups@[j]).0@ != key@,
        decreases groups@.len() - i,
    {
        if groups[i].0 == *key {
            return i;
        }
        i = i + 1;
    }
    i
}

/// Appends one source to the group its category names, opening the group at
/// the end when it is new.
fn upsert(groups: Vec<(String, Vec<String>)>, key: String, url: String) -> (r: Vec<
    (String, Vec<String>),
>)
    ensures
        groups_view(r@) == spec_upsert(groups_view(groups@), key@, url@),
{
    let ghost g0 = groups_view(groups@);
    let ghost old_groups = groups@;
    let mut groups = groups;
    let idx = find_key(&groups, &key);
    if idx < groups.len() {
        let mut pair = groups.remove(idx);
        let ghost urls0 = pair.1@.map_values(|u: String| u@);
        pair.1.push(url);
        proof {
            assert(pair.1@.map_values(|u: String| u@) =~= urls0.push(url@));
        }
        groups.insert(idx, pair);
        proof {
            assert forall|j: int| 0 <= j < idx implies #[trigger] g0[j].0 != key@ by {
                assert(g0[j].0 == old_groups[j].0@);
            };
            assert(g0[idx as int].0 == key@);
            lemma_upsert_found(g0, key@, url@, idx as int);
            assert(groups_view(groups@) =~= g0.update(idx as int, (g0[idx as int].0, g0[idx as int].1.push(url@))));
        }
        groups
    } else {
        let mut v: Vec<String> = Vec::new();
        v.push(url);
        proof {
            assert(v@.map_values(|u: String| u@) =~= seq![url@]);
        }
        groups.push((key, v));
        proof {
            assert forall|j: int| 0 <= j < g0.len() implies #[trigger] g0[j].0 != key@ by {
                assert(g0[j].0 == old_groups[j].0@);
            };
            lemma_upsert_absent(g0, key@, url@);
            assert(groups_view(groups@) =~= g0.push((key@, seq![url@])));
        }
        groups
    }
}

/// Groups a config's lines: each non-empty, non-comment line names a source
/// and, optionally, a category; sources gather under their category, in the
/// order the file gave them, with unlabelled sources under "no category".
#[verifier::loop_isolation(false)]
pub fn group_urls(lines: &Vec<String>) -> (r: Vec<(String, Vec<String>)>)
    requires
        lines_ok(lines@.map_values(|l: String| l@)),
    ensures
        groups_view(r@) == spec_group_lines(lines@.map_values(|l: String| l@)),
{
    let ghost lv = lines@.map_values(|l: String| l@);
    let mut groups: Vec<(String, Vec<String>)> = Vec::new();
    proof {
        assert(groups_view(groups@) =~= Seq::<(Seq<char>, Seq<Seq<char>>)>::empty());
        assert(lv.take(0) =~= Seq::<Seq<char>>::empty());
    }
    let mut i: usize = 0;
    while i < lines.len()
        invariant
            0 <= i <= lines@.len(),
            groups_view(groups@) == spec_group_lines(lv.take(i as int)),
        decreases lines@.len() - i,
    {
        let line = lines[i].clone();
        proof {
            assert(lv[i as int] == line@);
        }
        let n = line.as_str().unicode_len();
        let included = n > 0 && line.as_str().get_char(0) != '#';
        if included {
            let (url, cat) = get_categories(line);
            let key: String = match cat {
                Some(c) => c,
                None => "no category".to_owned(),
            };
            proof {
                assert(key@ == line_key(lv[i as int]));
            }
            groups = upsert(groups, key, url);
        }
        proof {
            assert(lv.take(i + 1).drop_last() =~= lv.take(i as int));
            assert(lv.take(i + 1).last() == lv[i as int]);
        }
        i = i + 1;
    }
    proof {
        assert(lv.take(lv.len() as int) =~= lv);
    }
    groups
}

/// Whether a category stands in the wanted set.
fn contains_str(v: &Vec<String>, s: &String) -> (r: bool)
    ensures
        r == v@.map_values(|c: String| c@).contains(s@),
{
    let mut i: usize = 0;
    while i < v.len()
        invariant
            0 <= i <= v@.len(),
            forall|j: int| 0 <= j < i ==> (#[trigger] v@[j])@ != s@,
        decreases v@.len() - i,
    {
        if v[i] == *s {
            proof {
                assert(v@.map_values(|c: String| c@)[i as int] == s@);
            }
            return true;
        }
        i = i + 1;
    }
    proof {
        let m = v@.map_values(|c: String| c@);
        if m.contains(s@) {
            let k = choose|k: int| 0 <= k < m.len() && #[trigger] m[k] == s@;
            assert(v@[k]@ != s@);
            assert(false);
        }
    }
    false
}

/// Keeps only the groups whose category stands in the wanted set, in their
/// original order.
#[verifier::loop_isolation(false)]
pub fn filter_categories(urls: Vec<(String, Vec<String>)>, categories: Vec<String>) -> (r: Vec<
    (String, Vec<String>),
>)
    ensures
        groups_view(r@) == spec_filter(
            groups_view(urls@),
            categories@.map_values(|c: String| c@),
        ),
{
    let ghost g0 = groups_view(urls@);
    let ghost cats = categories@.map_values(|c: String| c@);
    let mut urls = urls;
    let mut out: Vec<(String, Vec<String>)> = Vec::new();
    proof {
        assert(groups_view(out@) =~= Seq::<(Seq<char>, Seq<Seq<char>>)>::empty());
        assert(groups_view(out@) + spec_filter(groups_view(urls@), cats) =~= spec_filter(
            groups_view(urls@),
            cats,
        ));
    }
    while urls.len() > 0
        invariant
            spec_filter(g0, cats) == groups_view(out@) + spec_filter(groups_view(urls@), cats),
        decreases urls@.len(),
    {
        let ghost before = groups_view(urls@);
        let pair = urls.remove(0);
        let ghost pv = (pair.0@, pair.1@.map_values(|u: String| u@));
        proof {
            assert(before.first() == pv);
            assert(groups_view(urls@) =~= before.drop_first());
        }
        if contains_str(&categories, &pair.0) {
            let ghost out0 = groups_view(out@);
            out.push(pair);
            proof {
                assert(groups_view(out@) =~= out0.push(pv));
                assert(out0.push(pv) + spec_filter(before.drop_first(), cats) =~= out0 + (
                seq![pv] + spec_filter(before.drop_first(), cats)));
            }
        }
    }
    proof {
        assert(groups_view(urls@).len() == 0);
        assert(groups_view(out@) + spec_filter(groups_view(urls@), cats) =~= groups_view(out@));
    }
    out
}

/// No category owns two groups: the grouped sequence behaves as the map it
/// stands for, one group per key.
pub open spec fn distinct_keys(groups: Seq<(Seq<char>, Seq<Seq<char>>)>) -> bool {
    forall|i: int, j: int|
        0 <= i < j < groups.len() ==> (#[trigger] groups[i]).0 != (#[trigger] groups[j]).0
}

proof fn lemma_upsert_keeps_distinct(
    g: Seq<(Seq<char>, Seq<Seq<char>>)>,
    key: Seq<char>,
    url: Seq<char>,
)
    requires
        distinct_keys(g),
    ensures
        distinct_keys(spec_upsert(g, key, url)),
{
    let u = spec_upsert(g, key, url);
    if exists|i: int| 0 <= i < g.len() && (#[trigger] g[i]).0 == key {
        let i = choose|i: int| 0 <= i < g.len() && (#[trigger] g[i]).0 == key;
        assert forall|j: int| 0 <= j < i implies g[j].0 != key by {
            assert(g[j].0 != g[i].0);
        };
        lemma_upsert_found(g, key, url, i);
        assert forall|m: int, l: int| 0 <= m < l < u.len() implies (#[trigger] u[m]).0 != (
        #[trigger] u[l]).0 by {
            assert(u[m].0 == g[m].0);
            assert(u[l].0 == g[l].0);
            assert(g[m].0 != g[l].0);
        };
    } else {
        lemma_upsert_absent(g, key, url);
        assert forall|m: int, l: int| 0 <= m < l < u.len() implies (#[trigger] u[m]).0 != (
        #[trigger] u[l]).0 by {
            assert(u[m].0 == g[m].0);
            if l < g.len() {
                assert(u[l].0 == g[l].0);
                assert(g[m].0 != g[l].0);
            } else {
                assert(u[l].0 == key);
                assert(g[m].0 != key);
            }
        };
    }
}

/// The uniqueness law of the grouping: however a config reads, no two of its
/// groups carry the same category label — what a keyed map would guarantee,
/// the insertion-ordered sequence guarantees too.
pub proof fn lemma_group_keys_unique(lines: Seq<Seq<char>>)
    ensures
        distinct_keys(spec_group_lines(lines)),
    decreases lines.len(),
{
    if lines.len() != 0 {
        lemma_group_keys_unique(lines.drop_last());
        if line_included(lines.last()) {
            lemma_upsert_keeps_distinct(
                spec_group_lines(lines.drop_last()),
                line_key(lines.last()),
                first_token(lines.last()),
            );
        }
    }
}

} // verus!
