//! Rewrites the leading part of source paths, as given by `OLD[=NEW]` specs.

use vstd::prelude::*;
use vstd::std_specs::iter::IteratorSpec;

verus! {

/// The characters of `s`, in order.
pub(crate) fn chars_of(s: &str) -> (r: Vec<char>)
    ensures
        r@ == s@,
{
    broadcast use vstd::string::axiom_spec_iter, vstd::string::next_postcondition;
    let mut it = s.chars();
    let mut r: Vec<char> = Vec::new();
    loop
        invariant
            r@ + it.remaining() == s@,
            it.decrease() is Some,
        ensures
            r@ == s@,
        decreases it.decrease()->0,
    {
        match it.next() {
            Some(c) => {
                r.push(c);
                assert(r@ + it.remaining() =~= s@);
            },
            None => {
                assert(r@ =~= s@);
                break;
            },
        }
    }
    r
}

/// Relies on `String`'s `FromIterator<&char>`: the string of those characters, in order.
#[verifier::external_body]
pub(crate) fn string_of(v: &Vec<char>) -> (r: String)
    ensures
        r@ == v@,
{
    v.iter().collect()
}

/// The position of the first `c` in `s`, or -1.
pub open spec fn first_index_of(s: Seq<char>, c: char) -> int
    decreases s.len(),
{
    if s.len() == 0 {
        -1
    } else {
        let i = first_index_of(s.drop_last(), c);
        if i >= 0 {
            i
        } else if s.last() == c {
            s.len() - 1
        } else {
            -1
        }
    }
}

/// The old and the new prefix of a spec `OLD=NEW`, split at the first `=`;
/// a spec without `=` replaces `OLD` by nothing.
pub open spec fn parse_spec(s: Seq<char>) -> (Seq<char>, Seq<char>) {
    let i = first_index_of(s, '=');
    if i >= 0 {
        (s.take(i), s.skip(i + 1))
    } else {
        (s, seq![])
    }
}

/// Whether `p` is a prefix of `s`.
pub open spec fn is_prefix_of(p: Seq<char>, s: Seq<char>) -> bool {
    p.len() <= s.len() && s.take(p.len() as int) == p
}

/// `path` with the old prefix of the first replacement that matches it
/// swapped for that replacement's new prefix; `path` itself if none matches.
pub open spec fn replace_path(reps: Seq<(Seq<char>, Seq<char>)>, path: Seq<char>) -> Seq<char>
    decreases reps.len(),
{
    if reps.len() == 0 {
        path
    } else if is_prefix_of(reps[0].0, path) {
        reps[0].1 + path.skip(reps[0].0.len() as int)
    } else {
        replace_path(reps.drop_first(), path)
    }
}

/// The old and new prefixes of replacements.
pub open spec fn replacements_view(s: Seq<(String, String)>) -> Seq<(Seq<char>, Seq<char>)> {
    s.map_values(|r: (String, String)| (r.0@, r.1@))
}

/// The parsed form of each spec.
pub open spec fn parsed_specs(s: Seq<String>) -> Seq<(Seq<char>, Seq<char>)> {
    s.map_values(|t: String| parse_spec(t@))
}

/// Prefix replacements for source paths, tried in order.
pub struct PrefixReplacements {
    /// Old prefix and new prefix.
    pub replacements: Vec<(String, String)>,
}

impl PrefixReplacements {
    pub open spec fn view(&self) -> Seq<(Seq<char>, Seq<char>)> {
        replacements_view(self.replacements@)
    }

    /// Reads specs of the form `OLD[=NEW]`, keeping their order.
    pub fn parse(input: &Vec<String>) -> (r: PrefixReplacements)
        ensures
            r@ == parsed_specs(input@),
    {
        let mut replacements: Vec<(String, String)> = Vec::new();
        let mut i: usize = 0;
        while i < input.len()
            invariant
                i <= input@.len(),
                replacements_view(replacements@) == parsed_specs(input@.take(i as int)),
                replacements@.len() == i,
            decreases input.len() - i,
        {
            let chars = chars_of(input[i].as_str());
            let mut j: usize = 0;
            while j < chars.len() && chars[j] != '='
                invariant
                    j <= chars@.len(),
                    first_index_of(chars@.take(j as int), '=') == -1,
                decreases chars.len() - j,
            {
                assert(chars@.take(j + 1).drop_last() =~= chars@.take(j as int));
                j = j + 1;
            }
            proof {
                if j < chars@.len() {
                    assert(chars@.take(j + 1).drop_last() =~= chars@.take(j as int));
                    lemma_first_index_prefix(chars@, '=', j + 1);
                } else {
                    assert(chars@.take(j as int) =~= chars@);
                }
            }
            let pair = if j < chars.len() {
                let old_prefix = slice_chars(&chars, 0, j);
                let new_prefix = slice_chars(&chars, j + 1, chars.len());
                assert(old_prefix@ =~= chars@.take(j as int));
                assert(new_prefix@ =~= chars@.skip(j + 1));
                (string_of(&old_prefix), string_of(&new_prefix))
            } else {
                (input[i].clone(), String::new())
            };
            assert((pair.0@, pair.1@) == parse_spec(input@[i as int]@));
            let ghost before = replacements@;
            replacements.push(pair);
            proof {
                let a = replacements_view(replacements@);
                let b = parsed_specs(input@.take(i + 1));
                assert forall|k: int| 0 <= k < a.len() implies a[k] == b[k] by {
                    if k < i {
                        assert(replacements@[k] == before[k]);
                        assert(a[k] == replacements_view(before)[k]);
                        assert(b[k] == parsed_specs(input@.take(i as int))[k]);
                    }
                }
                assert(a =~= b);
            }
            i = i + 1;
        }
        assert(input@.take(i as int) =~= input@);
        let r = PrefixReplacements { replacements };
        assert(r@ == replacements_view(r.replacements@));
        r
    }

    /// Replaces the old prefix of the first replacement that matches `path`
    /// by its new prefix.
    pub fn replace(&self, path: &String) -> (r: String)
        ensures
            r@ == replace_path(self@, path@),
    {
        let p = chars_of(path.as_str());
        let mut k: usize = 0;
        assert(self@.skip(0) =~= self@);
        while k < self.replacements.len()
            invariant
                k <= self@.len(),
                p@ == path@,
                replace_path(self@, path@) == replace_path(self@.skip(k as int), path@),
            decreases self.replacements.len() - k,
        {
            let ghost rest = self@.skip(k as int);
            assert(rest.drop_first() =~= self@.skip(k + 1));
            let old_prefix = chars_of(self.replacements[k].0.as_str());
            if starts_with_chars(&p, &old_prefix) {
                let mut result = chars_of(self.replacements[k].1.as_str());
                let mut m: usize = old_prefix.len();
                let ghost head = result@;
                while m < p.len()
                    invariant
                        old_prefix@.len() <= m <= p@.len(),
                        result@ == head + p@.subrange(old_prefix@.len() as int, m as int),
                    decreases p.len() - m,
                {
                    result.push(p[m]);
                    assert(result@ =~= head + p@.subrange(old_prefix@.len() as int, m + 1));
                    m = m + 1;
                }
                assert(p@.subrange(old_prefix@.len() as int, p@.len() as int) =~= p@.skip(old_prefix@.len() as int));
                return string_of(&result);
            }
            k = k + 1;
        }
        path.clone()
    }

    /// Applies `replace` to every path.
    pub fn replace_all(&self, paths: &mut Vec<String>)
        ensures
            final(paths)@.len() == old(paths)@.len(),
            forall|i: int| 0 <= i < old(paths)@.len() ==> #[trigger] final(paths)@[i]@ == replace_path(self@, old(paths)@[i]@),
    {
        let mut i: usize = 0;
        while i < paths.len()
            invariant
                i <= paths@.len(),
                paths@.len() == old(paths)@.len(),
                forall|k: int| 0 <= k < i ==> #[trigger] paths@[k]@ == replace_path(self@, old(paths)@[k]@),
                forall|k: int| i <= k < paths@.len() ==> #[trigger] paths@[k] == old(paths)@[k],
            decreases paths.len() - i,
        {
            let r = self.replace(&paths[i]);
            paths[i] = r;
            i = i + 1;
        }
    }
}

proof fn lemma_first_index_prefix(s: Seq<char>, c: char, m: int)
    requires
        0 <= m <= s.len(),
        first_index_of(s.take(m), c) >= 0,
    ensures
        first_index_of(s, c) == first_index_of(s.take(m), c),
    decreases s.len(),
{
    if m < s.len() {
        assert(s.drop_last().take(m) =~= s.take(m));
        lemma_first_index_prefix(s.drop_last(), c, m);
    } else {
        assert(s.take(m) =~= s);
    }
}

fn slice_chars(s: &Vec<char>, a: usize, b: usize) -> (r: Vec<char>)
    requires
        a <= b <= s@.len(),
    ensures
        r@ == s@.subrange(a as int, b as int),
{
    let mut r: Vec<char> = Vec::new();
    let mut i: usize = a;
    while i < b
        invariant
            a <= i <= b <= s@.len(),
            r@ == s@.subrange(a as int, i as int),
        decreases b - i,
    {
        r.push(s[i]);
        assert(r@ =~= s@.subrange(a as int, i + 1));
        i = i + 1;
    }
    r
}

fn starts_with_chars(s: &Vec<char>, p: &Vec<char>) -> (r: bool)
    ensures
        r == is_prefix_of(p@, s@),
{
    if p.len() > s.len() {
        return false;
    }
    let mut i: usize = 0;
    while i < p.len()
        invariant
            p@.len() <= s@.len(),
            i <= p@.len(),
            s@.take(i as int) == p@.take(i as int),
        decreases p.len() - i,
    {
        if s[i] != p[i] {
            assert(s@.take(p@.len() as int)[i as int] != p@[i as int]);
            return false;
        }
        assert(s@.take(i + 1) =~= s@.take(i as int).push(s@[i as int]));
        assert(p@.take(i + 1) =~= p@.take(i as int).push(p@[i as int]));
        i = i + 1;
    }
    assert(p@ =~= p@.take(i as int));
    true
}

/// Neither of two prefixes is a prefix of the other.
pub open spec fn prefix_apart(a: Seq<char>, b: Seq<char>) -> bool {
    !is_prefix_of(a, b) && !is_prefix_of(b, a)
}

proof fn lemma_no_match(reps: Seq<(Seq<char>, Seq<char>)>, path: Seq<char>)
    requires
        forall|j: int| 0 <= j < reps.len() ==> !is_prefix_of(#[trigger] reps[j].0, path),
    ensures
        replace_path(reps, path) == path,
    decreases reps.len(),
{
    if reps.len() > 0 {
        assert(!is_prefix_of(reps[0].0, path));
        assert forall|j: int| 0 <= j < reps.drop_first().len() implies !is_prefix_of(#[trigger] reps.drop_first()[j].0, path) by {
            assert(reps.drop_first()[j] == reps[j + 1]);
        }
        lemma_no_match(reps.drop_first(), path);
    }
}

proof fn lemma_replaced_by_some(reps: Seq<(Seq<char>, Seq<char>)>, path: Seq<char>)
    ensures
        replace_path(reps, path) == path || exists|k: int| 0 <= k < reps.len()
            && replace_path(reps, path) == reps[k].1 + path.skip(reps[k].0.len() as int),
    decreases reps.len(),
{
    if reps.len() > 0 && !is_prefix_of(reps[0].0, path) {
        lemma_replaced_by_some(reps.drop_first(), path);
        if replace_path(reps, path) != path {
            let k = choose|k: int| 0 <= k < reps.drop_first().len()
                && replace_path(reps.drop_first(), path) == reps.drop_first()[k].1 + path.skip(reps.drop_first()[k].0.len() as int);
            assert(reps.drop_first()[k] == reps[k + 1]);
        }
    } else if reps.len() > 0 {
        assert(replace_path(reps, path) == reps[0].1 + path.skip(reps[0].0.len() as int));
    }
}

/// Replacing prefixes a second time changes nothing, when no old prefix and
/// no new prefix of the replacements are such that one is a prefix of the other.
pub proof fn lemma_replace_idempotent(reps: Seq<(Seq<char>, Seq<char>)>, path: Seq<char>)
    requires
        forall|j: int, k: int| 0 <= j < reps.len() && 0 <= k < reps.len() ==> prefix_apart(#[trigger] reps[j].0, #[trigger] reps[k].1),
    ensures
        replace_path(reps, replace_path(reps, path)) == replace_path(reps, path),
{
    let r = replace_path(reps, path);
    lemma_replaced_by_some(reps, path);
    if r != path {
        let k = choose|k: int| 0 <= k < reps.len() && r == reps[k].1 + path.skip(reps[k].0.len() as int);
        assert forall|j: int| 0 <= j < reps.len() implies !is_prefix_of(#[trigger] reps[j].0, r) by {
            assert(prefix_apart(reps[j].0, reps[k].1));
            let a = reps[j].0;
            let b = reps[k].1;
            if is_prefix_of(a, r) {
                assert forall|i: int| 0 <= i < a.len() && i < b.len() implies a[i] == b[i] by {
                    assert(a[i] == r.take(a.len() as int)[i]);
                    assert(r[i] == b[i]);
                }
                if a.len() <= b.len() {
                    assert(b.take(a.len() as int) =~= a);
                } else {
                    assert(a.take(b.len() as int) =~= b);
                }
            }
        }
        lemma_no_match(reps, r);
    }
}

} // verus!
