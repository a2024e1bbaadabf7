use vstd::prelude::*;

verus! {

/// The links of a particle's colour string as a plain sequence, if it has a string.
pub open spec fn links_view(links: Option<Vec<usize>>) -> Option<Seq<usize>> {
    match links {
        Some(v) => Some(v@),
        None => None,
    }
}

/// Whether `p` is the position of the first occurrence of `x` in `s`.
pub open spec fn is_first_position(s: Seq<usize>, x: usize, p: int) -> bool {
    &&& 0 <= p < s.len()
    &&& s[p] == x
    &&& forall|j: int| 0 <= j < p ==> s[j] != x
}

/// Position of the first occurrence of `x` in `s`, if `x` occurs.
pub open spec fn first_position(s: Seq<usize>, x: usize) -> Option<int> {
    if s.contains(x) {
        Some(choose|p: int| is_first_position(s, x, p))
    } else {
        None
    }
}

/// The string `links` with its first link to `from` redirected to `to`; with
/// no such link, `to` is appended; with no string at all, a string holding
/// only `fresh` is made.
pub open spec fn rewired(links: Option<Seq<usize>>, from: usize, to: usize, fresh: usize) -> Option<
    Seq<usize>,
> {
    match links {
        None => Some(seq![fresh]),
        Some(s) => match first_position(s, from) {
            Some(p) => Some(s.update(p, to)),
            None => Some(s.push(to)),
        },
    }
}

/// The string `links` with `link` appended, or a new string of that one link.
pub open spec fn linked(links: Option<Seq<usize>>, link: usize) -> Option<Seq<usize>> {
    match links {
        None => Some(seq![link]),
        Some(s) => Some(s.push(link)),
    }
}

/// The first position can only be one place.
proof fn lemma_first_position_unique(s: Seq<usize>, x: usize, p: int)
    requires
        is_first_position(s, x, p),
    ensures
        first_position(s, x) == Some(p),
{
    assert(s.contains(x));
    let q: int = choose|q: int| is_first_position(s, x, q);
    assert(is_first_position(s, x, q));
    if q < p {
        assert(s[q] != x);
    }
    if p < q {
        assert(s[p] != x);
    }
}

/// Position of the first link to `x`, if there is one.
fn position_of(links: &Vec<usize>, x: usize) -> (r: Option<usize>)
    ensures
        match r {
            Some(p) => first_position(links@, x) == Some(p as int) && is_first_position(
                links@,
                x,
                p as int,
            ),
            None => first_position(links@, x).is_none(),
        },
{
    let mut k: usize = 0;
    while k < links.len()
        invariant
            k <= links.len(),
            forall|j: int| 0 <= j < k ==> links@[j] != x,
        decreases links.len() - k,
    {
        if links[k] == x {
            proof {
                lemma_first_position_unique(links@, x, k as int);
            }
            return Some(k);
        }
        k = k + 1;
    }
    assert(!links@.contains(x));
    None
}

/// Whether `x` is one of the links.
fn has_link(links: &Vec<usize>, x: usize) -> (r: bool)
    ensures
        r == links@.contains(x),
{
    let mut k: usize = 0;
    while k < links.len()
        invariant
            k <= links.len(),
            forall|j: int| 0 <= j < k ==> links@[j] != x,
        decreases links.len() - k,
    {
        if links[k] == x {
            return true;
        }
        k = k + 1;
    }
    false
}

/// The first link of a string that leads somewhere other than `i`: the quark
/// at the far end of the string of the particle whose links these are.
pub fn partner(links: &Vec<usize>, i: usize) -> (r: Option<usize>)
    ensures
        r.is_none() <==> (forall|k: int| 0 <= k < links@.len() ==> links@[k] == i),
        r matches Some(q) ==> exists|k: int|
            0 <= k < links@.len() && links@[k] == q && q != i && forall|j: int|
                0 <= j < k ==> links@[j] == i,
{
    let mut k: usize = 0;
    while k < links.len()
        invariant
            k <= links.len(),
            forall|j: int| 0 <= j < k ==> links@[j] == i,
        decreases links.len() - k,
    {
        if links[k] != i {
            return Some(links[k]);
        }
        k = k + 1;
    }
    None
}

/// Whether two strings share a link.
pub fn shares_link(a: &Vec<usize>, b: &Vec<usize>) -> (r: bool)
    ensures
        r == exists|k: int, l: int| 0 <= k < a@.len() && 0 <= l < b@.len() && a@[k] == b@[l],
{
    let mut k: usize = 0;
    while k < a.len()
        invariant
            k <= a.len(),
            forall|j: int| 0 <= j < k ==> !b@.contains(#[trigger] a@[j]),
        decreases a.len() - k,
    {
        if has_link(b, a[k]) {
            let ghost l: int = choose|l: int| 0 <= l < b@.len() && b@[l] == a@[k as int];
            assert(0 <= k < a@.len() && 0 <= l < b@.len() && a@[k as int] == b@[l]);
            return true;
        }
        k = k + 1;
    }
    assert forall|j: int, l: int| 0 <= j < a@.len() && 0 <= l < b@.len() implies a@[j] != b@[l] by {
        assert(!b@.contains(a@[j]));
    }
    false
}

/// Redirects the first link to `from` to `to`, appending `to` if there is no
/// such link, and making a string of just `fresh` if there is no string.
pub fn rewire(links: Option<Vec<usize>>, from: usize, to: usize, fresh: usize) -> (r: Option<
    Vec<usize>,
>)
    ensures
        links_view(r) == rewired(links_view(links), from, to, fresh),
{
    match links {
        Some(mut v) => {
            match position_of(&v, from) {
                Some(p) => {
                    v.set(p, to);
                },
                None => {
                    v.push(to);
                },
            }
            Some(v)
        },
        None => {
            let mut v: Vec<usize> = Vec::new();
            v.push(fresh);
            assert(v@ == seq![fresh]);
            Some(v)
        },
    }
}

/// Appends `link` to the string, making a new string if there is none.
pub fn append_link(links: Option<Vec<usize>>, link: usize) -> (r: Option<Vec<usize>>)
    ensures
        links_view(r) == linked(links_view(links), link),
        r matches Some(v) && v@.len() == (match links {
            Some(w) => w@.len() + 1,
            None => 1,
        }) && v@.last() == link && (links matches Some(w) ==> v@.subrange(0, w@.len() as int)
            == w@),
{
    match links {
        Some(mut v) => {
            v.push(link);
            Some(v)
        },
        None => {
            let mut v: Vec<usize> = Vec::new();
            v.push(link);
            assert(v@ == seq![link]);
            Some(v)
        },
    }
}

/// Redirecting a link that exists keeps the string's length, puts `to` where
/// the first `from` was and leaves every other link alone; otherwise the string
/// grows by exactly `to` (or `fresh`, if there was no string).
pub proof fn lemma_rewired_shape(links: Option<Seq<usize>>, from: usize, to: usize, fresh: usize)
    ensures
        ({
            let r = rewired(links, from, to, fresh);
            &&& r is Some
            &&& links is None ==> r == Some(seq![fresh])
            &&& links matches Some(s) ==> (s.contains(from) ==> {
                &&& r.unwrap().len() == s.len()
                &&& r.unwrap().contains(to)
                &&& exists|p: int|
                    0 <= p < s.len() && s[p] == from && (forall|j: int| 0 <= j < p ==> s[j] != from)
                        && r.unwrap() == s.update(p, to)
            })
            &&& links matches Some(s) ==> (!s.contains(from) ==> r.unwrap() == s.push(to))
        }),
{
    if let Some(s) = links {
        if s.contains(from) {
            let p: int = choose|p: int| is_first_position(s, from, p);
            let j: int = choose|j: int| 0 <= j < s.len() && s[j] == from;
            assert(is_first_position(s, from, p)) by {
                // a first occurrence exists: take the least index holding `from`
                lemma_first_occurrence_exists(s, from, j);
            }
            assert(rewired(links, from, to, fresh).unwrap()[p] == to);
        }
    }
}

/// If `x` occurs at `j`, some position is its first occurrence.
proof fn lemma_first_occurrence_exists(s: Seq<usize>, x: usize, j: int)
    requires
        0 <= j < s.len(),
        s[j] == x,
    ensures
        exists|p: int| is_first_position(s, x, p),
    decreases j,
{
    if exists|i: int| 0 <= i < j && s[i] == x {
        let i: int = choose|i: int| 0 <= i < j && s[i] == x;
        lemma_first_occurrence_exists(s, x, i);
    } else {
        assert(is_first_position(s, x, j));
    }
}

/// Every link of the string (if any) is an id below `n`.
pub open spec fn links_below(links: Option<Seq<usize>>, n: int) -> bool {
    links matches Some(s) ==> forall|k: int| 0 <= k < s.len() ==> s[k] < n
}

/// Redirecting or appending links to ids below `n` keeps every link below `n`.
pub proof fn lemma_links_below_kept(links: Option<Seq<usize>>, from: usize, to: usize, fresh: usize, link: usize, n: int)
    requires
        links_below(links, n),
        to < n,
        fresh < n,
        link < n,
    ensures
        links_below(rewired(links, from, to, fresh), n),
        links_below(linked(links, link), n),
{
    lemma_rewired_shape(links, from, to, fresh);
    if let Some(s) = links {
        if s.contains(from) {
            let p = choose|p: int| is_first_position(s, from, p) && rewired(links, from, to, fresh).unwrap() == s.update(p, to);
            let r = rewired(links, from, to, fresh).unwrap();
            assert forall|k: int| 0 <= k < r.len() implies r[k] < n by {
                if k != p {
                    assert(r[k] == s[k]);
                }
            }
        } else {
            let r = rewired(links, from, to, fresh).unwrap();
            assert forall|k: int| 0 <= k < r.len() implies r[k] < n by {
                if k < s.len() {
                    assert(r[k] == s[k]);
                }
            }
        }
        let l = linked(links, link).unwrap();
        assert forall|k: int| 0 <= k < l.len() implies l[k] < n by {
            if k < s.len() {
                assert(l[k] == s[k]);
            }
        }
    }
}

/// Linking appends: the string grows by exactly one link, the new link comes
/// last, and every earlier link stays where it was.
pub proof fn lemma_linked_appends(links: Option<Seq<usize>>, link: usize)
    ensures
        linked(links, link) is Some,
        ({
            let r = linked(links, link).unwrap();
            let n: int = match links {
                Some(s) => s.len() as int,
                None => 0,
            };
            &&& r.len() == n + 1
            &&& r[n] == link
            &&& forall|k: int| 0 <= k < n ==> r[k] == links.unwrap()[k]
        }),
{
}

} // verus!
