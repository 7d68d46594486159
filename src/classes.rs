use vstd::prelude::*;
use crate::dom::option_view;

verus! {

/// `p` is a prefix of `s`.
pub open spec fn has_prefix(s: Seq<char>, p: Seq<char>) -> bool {
    p.len() <= s.len() && s.subrange(0, p.len() as int) == p
}

/// Some prefix of `prefixes` is a prefix of `x`.
pub open spec fn spec_any_prefix_matches(x: Seq<char>, prefixes: Seq<Seq<char>>) -> bool {
    exists|k: int| 0 <= k < prefixes.len() && has_prefix(x, #[trigger] prefixes[k])
}

pub open spec fn strings_view(v: Seq<String>) -> Seq<Seq<char>> {
    v.map_values(|s: String| s@)
}

pub open spec fn strings_option_view(v: Option<Vec<String>>) -> Option<Seq<Seq<char>>> {
    match v {
        Some(v) => Some(strings_view(v@)),
        None => None,
    }
}

/// A class is kept when the allowed list (if any) matches it and the
/// denied list does not: exclusion wins.
pub open spec fn class_selected(
    class: Seq<char>,
    allowed: Option<Seq<Seq<char>>>,
    denied: Seq<Seq<char>>,
) -> bool {
    &&& match allowed {
        Some(inc) => spec_any_prefix_matches(class, inc),
        None => true,
    }
    &&& !spec_any_prefix_matches(class, denied)
}

/// The constant name and class name for each selected class, in order. With
/// a `prefix`, only classes that start with it are named, without it.
pub open spec fn selected_classes(
    classes: Seq<Seq<char>>,
    prefix: Option<Seq<char>>,
    allowed: Option<Seq<Seq<char>>>,
    denied: Seq<Seq<char>>,
) -> Seq<(Seq<char>, Seq<char>)>
    decreases classes.len(),
{
    if classes.len() == 0 {
        Seq::empty()
    } else {
        let rest = selected_classes(classes.drop_last(), prefix, allowed, denied);
        let c = classes.last();
        if !class_selected(c, allowed, denied) {
            rest
        } else {
            match prefix {
                Some(p) => if has_prefix(c, p) {
                    rest.push((c.subrange(p.len() as int, c.len() as int), c))
                } else {
                    rest
                },
                None => rest.push((c, c)),
            }
        }
    }
}

fn starts_with(s: &str, p: &str) -> (r: bool)
    ensures
        r == has_prefix(s@, p@),
{
    let n = s.unicode_len();
    let m = p.unicode_len();
    if m > n {
        return false;
    }
    let mut i: usize = 0;
    while i < m
        invariant
            0 <= i <= m <= n,
            n == s@.len(),
            m == p@.len(),
            forall|j: int| 0 <= j < i ==> s@[j] == p@[j],
        decreases m - i,
    {
        if s.get_char(i) != p.get_char(i) {
            assert(s@.subrange(0, m as int)[i as int] != p@[i as int]);
            return false;
        }
        i = i + 1;
    }
    assert(s@.subrange(0, m as int) =~= p@);
    true
}

/// Some prefix of `prefixes` is a prefix of `x`.
pub fn any_prefix_matches(x: &str, prefixes: &[String]) -> (r: bool)
    ensures
        r == spec_any_prefix_matches(x@, strings_view(prefixes@)),
{
    let ghost ps = strings_view(prefixes@);
    let mut i: usize = 0;
    while i < prefixes.len()
        invariant
            0 <= i <= prefixes@.len(),
            ps == strings_view(prefixes@),
            forall|k: int| 0 <= k < i ==> !has_prefix(x@, #[trigger] ps[k]),
        decreases prefixes@.len() - i,
    {
        if starts_with(x, prefixes[i].as_str()) {
            assert(has_prefix(x@, ps[i as int]));
            return true;
        }
        i = i + 1;
    }
    false
}

/// Choose the classes to define constants for, and their constant names.
pub fn select_classes(
    classes: &Vec<String>,
    prefix: Option<String>,
    include_prefixes: Option<Vec<String>>,
    exclude_prefixes: &Vec<String>,
) -> (r: Vec<(String, String)>)
    ensures
        r@.map_values(|p: (String, String)| (p.0@, p.1@)) == selected_classes(
            strings_view(classes@),
            option_view(prefix),
            strings_option_view(include_prefixes),
            strings_view(exclude_prefixes@),
        ),
{
    let ghost pre = option_view(prefix);
    let ghost inc = strings_option_view(include_prefixes);
    let ghost exc = strings_view(exclude_prefixes@);
    let ghost cs = strings_view(classes@);
    let mut r: Vec<(String, String)> = Vec::new();
    let mut i: usize = 0;
    while i < classes.len()
        invariant
            0 <= i <= classes@.len(),
            cs == strings_view(classes@),
            exc == strings_view(exclude_prefixes@),
            pre == option_view(prefix),
            inc == strings_option_view(include_prefixes),
            r@.map_values(|p: (String, String)| (p.0@, p.1@)) == selected_classes(
                cs.subrange(0, i as int),
                pre,
                inc,
                exc,
            ),
        decreases classes@.len() - i,
    {
        assert(cs.subrange(0, i + 1).drop_last() =~= cs.subrange(0, i as int));
        let ghost before = r@;
        let class = &classes[i];
        let allowed = match &include_prefixes {
            Some(v) => any_prefix_matches(class.as_str(), v.as_slice()),
            None => true,
        };
        let denied = any_prefix_matches(class.as_str(), exclude_prefixes.as_slice());
        if allowed && !denied {
            match &prefix {
                Some(p) => {
                    if starts_with(class.as_str(), p.as_str()) {
                        let n = class.as_str().unicode_len();
                        let m = p.as_str().unicode_len();
                        let ident = class.as_str().substring_char(m, n).to_owned();
                        r.push((ident, class.clone()));
                    }
                },
                None => {
                    r.push((class.clone(), class.clone()));
                },
            }
        }
        i = i + 1;
        assert(r@.map_values(|p: (String, String)| (p.0@, p.1@)) =~= selected_classes(
            cs.subrange(0, i as int),
            pre,
            inc,
            exc,
        ));
    }
    assert(cs.subrange(0, classes@.len() as int) =~= cs);
    r
}

} // verus!
