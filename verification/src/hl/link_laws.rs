//! Where paths lead, and what making, moving and removing links does.

use vstd::prelude::*;
use vstd::utf8::encode_utf8;

use crate::format::group_write::{by_name, bytes_before, law_by_name_keeps, name_place};
use crate::hl::group::{
    by_creation, distinct, group_added, group_created, groups_made, has_link, link_added,
    link_moved, link_place, link_removed, members, new_link, of_kind, order_place, pieces,
    start_of, traversed, unlinked, IterationOrder, MemberKind, TraversalOrder,
};
use crate::model::{
    components, followed, law_link_at, link_at, names, nesting, path_to, resolved, scanned,
    searched, slash_at, unseen, FileView, LinkView, TargetView,
};

verus! {

// Paths.

proof fn lemma_slash_suffix(s: Seq<char>, i: int, j: int)
    requires
        0 <= i <= j <= s.len(),
    ensures
        slash_at(s, j) == i + slash_at(s.skip(i), j - i),
        j <= slash_at(s, j) <= s.len(),
        slash_at(s, j) < s.len() ==> s[slash_at(s, j)] == '/',
        forall|k: int| j <= k < slash_at(s, j) ==> #[trigger] s[k] != '/',
    decreases s.len() - j,
{
    if j < s.len() && s[j] != '/' {
        lemma_slash_suffix(s, i, j + 1);
    }
}

proof fn lemma_components_suffix(s: Seq<char>, i: int)
    requires
        0 <= i <= s.len(),
    ensures
        components(s, i) == components(s.skip(i), 0),
    decreases s.len() - i,
{
    let t = s.skip(i);
    if i < s.len() {
        lemma_slash_suffix(s, i, i);
        lemma_slash_suffix(t, 0, 0);
        let k = slash_at(s, i);
        let m = slash_at(t, 0);
        assert(s.subrange(i, k) =~= t.subrange(0, m));
        if k < s.len() {
            lemma_components_suffix(s, k + 1);
            lemma_components_suffix(t, m + 1);
            assert(t.skip(m + 1) =~= s.skip(k + 1));
        } else {
            assert(components(s, k + 1) == Seq::<Seq<char>>::empty());
            assert(components(t, m + 1) == Seq::<Seq<char>>::empty());
        }
        assert(components(s, k + 1) == components(t, m + 1));
    } else {
        assert(components(s, i) == Seq::<Seq<char>>::empty());
        assert(components(t, 0) == Seq::<Seq<char>>::empty());
    }
}

/// A name stands for itself in a path; nothing and a dot stand for nothing.
pub proof fn law_name_in_path(name: Seq<char>)
    requires
        forall|i: int| 0 <= i < name.len() ==> #[trigger] name[i] != '/',
    ensures
        name.len() > 0 && name != seq!['.'] ==> components(name, 0) == seq![name],
        name.len() == 0 || name == seq!['.'] ==> components(name, 0) == Seq::<Seq<char>>::empty(),
{
    if name.len() > 0 {
        lemma_slash_suffix(name, 0, 0);
        assert(slash_at(name, 0) == name.len());
        assert(name.subrange(0, name.len() as int) =~= name);
        assert(components(name, name.len() as int + 1) =~= Seq::<Seq<char>>::empty());
        assert(seq![name] + Seq::<Seq<char>>::empty() =~= seq![name]);
    }
}

/// The parts of two paths with a slash between them are those of the first and then those
/// of the second.
pub proof fn law_paths_joined(a: Seq<char>, b: Seq<char>)
    ensures
        components(a + seq!['/'] + b, 0) == components(a, 0) + components(b, 0),
    decreases a.len(),
{
    let s = a + seq!['/'] + b;
    lemma_slash_suffix(a, 0, 0);
    lemma_slash_suffix(s, 0, 0);
    let k = slash_at(a, 0);
    let m = slash_at(s, 0);
    assert(m == k) by {
        if m < k {
            assert(s[m] == a[m]);
        }
        if k < m {
            assert(s[k] == '/');
        }
    }
    assert(s.subrange(0, m) =~= a.subrange(0, k));
    lemma_components_suffix(s, m + 1);
    if k < a.len() {
        let rest = a.skip(k + 1);
        law_paths_joined(rest, b);
        lemma_components_suffix(a, k + 1);
        assert(s.skip(m + 1) =~= rest + seq!['/'] + b);
        let head = a.subrange(0, k);
        assert(seq![head] + (components(rest, 0) + components(b, 0)) =~= seq![head] + components(
            rest,
            0,
        ) + components(b, 0));
    } else {
        assert(s.skip(m + 1) =~= b);
        assert(a.subrange(0, k) =~= a);
        let none = Seq::<Seq<char>>::empty();
        if a.len() > 0 {
            assert(components(a, k + 1) =~= none);
            assert(seq![a] + none =~= seq![a]);
        }
        assert(none + components(b, 0) =~= components(b, 0));
    }
}

proof fn lemma_followed_joined(
    f: FileView,
    cur: nat,
    p: Seq<Seq<char>>,
    q: Seq<Seq<char>>,
    i: int,
    depth: nat,
)
    requires
        0 <= i <= p.len(),
    ensures
        followed(f, cur, p + q, i, depth) == (match followed(f, cur, p, i, depth) {
            None => None,
            Some(mid) => followed(f, mid, q, 0, depth),
        }),
    decreases p.len() - i,
{
    if i == p.len() {
        lemma_followed_skip(f, cur, p + q, i, depth);
        assert((p + q).skip(i) =~= q);
    } else {
        assert((p + q)[i] == p[i]);
        if let Some(g) = f.group(cur) {
            if let Some(k) = link_at(g.links, p[i]) {
                match g.links[k as int].target {
                    TargetView::Hard(id) => {
                        lemma_followed_joined(f, id, p, q, i + 1, depth);
                    },
                    TargetView::Soft(path) => {
                        if depth > 0 {
                            if let Some(id) = followed(
                                f,
                                f.root,
                                components(path, 0),
                                0,
                                (depth - 1) as nat,
                            ) {
                                lemma_followed_joined(f, id, p, q, i + 1, depth);
                            }
                        }
                    },
                    TargetView::External { .. } => {},
                }
            }
        }
    }
}

proof fn lemma_followed_skip(f: FileView, cur: nat, p: Seq<Seq<char>>, i: int, depth: nat)
    requires
        0 <= i <= p.len(),
    ensures
        followed(f, cur, p, i, depth) == followed(f, cur, p.skip(i), 0, depth),
    decreases p.len() - i,
{
    let t = p.skip(i);
    if i < p.len() {
        assert(t[0] == p[i]);
        if let Some(g) = f.group(cur) {
            if let Some(k) = link_at(g.links, p[i]) {
                match g.links[k as int].target {
                    TargetView::Hard(id) => {
                        lemma_followed_skip(f, id, p, i + 1, depth);
                        lemma_followed_skip(f, id, t, 1, depth);
                        assert(t.skip(1) =~= p.skip(i + 1));
                    },
                    TargetView::Soft(path) => {
                        if depth > 0 {
                            if let Some(id) = followed(
                                f,
                                f.root,
                                components(path, 0),
                                0,
                                (depth - 1) as nat,
                            ) {
                                lemma_followed_skip(f, id, p, i + 1, depth);
                                lemma_followed_skip(f, id, t, 1, depth);
                                assert(t.skip(1) =~= p.skip(i + 1));
                            }
                        }
                    },
                    TargetView::External { .. } => {},
                }
            }
        }
    }
}

/// A path that goes on leads where its rest leads from where its start leads.
pub proof fn law_path_goes_on(f: FileView, start: nat, a: Seq<char>, b: Seq<char>)
    requires
        a.len() > 0,
        b.len() == 0 || b[0] != '/',
    ensures
        resolved(f, start, a + seq!['/'] + b) == (match resolved(f, start, a) {
            None => None,
            Some(mid) => resolved(f, mid, b),
        }),
{
    let s = a + seq!['/'] + b;
    law_paths_joined(a, b);
    assert(s[0] == a[0]);
    lemma_followed_joined(
        f,
        start_of(f, start, a),
        components(a, 0),
        components(b, 0),
        0,
        nesting(f.objects),
    );
}

/// A path that begins with a slash leads on from the root, wherever it starts.
pub proof fn law_absolute_path(f: FileView, start: nat, b: Seq<char>)
    ensures
        resolved(f, start, seq!['/'] + b) == followed(
            f,
            f.root,
            components(b, 0),
            0,
            nesting(f.objects),
        ),
{
    let none = Seq::<char>::empty();
    law_paths_joined(none, b);
    assert(none + seq!['/'] + b =~= seq!['/'] + b);
    assert(components(none, 0) + components(b, 0) =~= components(b, 0));
    assert((seq!['/'] + b)[0] == '/');
}

proof fn lemma_deeper(f: FileView, cur: nat, p: Seq<Seq<char>>, i: int, depth: nat)
    requires
        followed(f, cur, p, i, depth) is Some,
    ensures
        followed(f, cur, p, i, depth + 1) == followed(f, cur, p, i, depth),
    decreases depth, p.len() - i,
{
    if 0 <= i < p.len() {
        let g = f.group(cur)->0;
        let k = link_at(g.links, p[i])->0;
        match g.links[k as int].target {
            TargetView::Hard(id) => {
                lemma_deeper(f, id, p, i + 1, depth);
            },
            TargetView::Soft(path) => {
                lemma_deeper(f, f.root, components(path, 0), 0, (depth - 1) as nat);
                let id = followed(f, f.root, components(path, 0), 0, (depth - 1) as nat)->0;
                lemma_deeper(f, id, p, i + 1, depth);
            },
            TargetView::External { .. } => {},
        }
    }
}

/// The name of a link leads where the link does: a hard link to its object, a soft link to
/// where its path leads from the root, and an external link nowhere in the file. A name
/// without a link leads nowhere.
pub proof fn law_name_leads(f: FileView, start: nat, name: Seq<char>)
    requires
        names(name),
        forall|i: int| 0 <= i < name.len() ==> #[trigger] name[i] != '/',
        f.group(start) is Some,
    ensures
        match link_at(f.group(start)->0.links, name) {
            None => resolved(f, start, name) is None,
            Some(k) => match f.group(start)->0.links[k as int].target {
                TargetView::Hard(id) => resolved(f, start, name) == Some(id),
                TargetView::Soft(path) => resolved(f, start, name) matches Some(id) ==> resolved(
                    f,
                    f.root,
                    path,
                ) == Some(id),
                TargetView::External { .. } => resolved(f, start, name) is None,
            },
        },
{
    law_name_in_path(name);
    let p = components(name, 0);
    let d = nesting(f.objects);
    assert(p[0] == name);
    if let Some(k) = link_at(f.group(start)->0.links, name) {
        match f.group(start)->0.links[k as int].target {
            TargetView::Hard(id) => {
                assert(followed(f, id, p, 1, d) == Some(id));
            },
            TargetView::Soft(path) => {
                if let Some(id) = resolved(f, start, name) {
                    let mid = followed(f, f.root, components(path, 0), 0, (d - 1) as nat)->0;
                    assert(followed(f, mid, p, 1, d) == Some(mid));
                    lemma_deeper(f, f.root, components(path, 0), 0, (d - 1) as nat);
                }
            },
            TargetView::External { .. } => {},
        }
    }
}

// The path of an object.

/// Whether the names of all links can stand in a path, and none stands twice in a group.
pub open spec fn named(f: FileView) -> bool {
    forall|id: nat|
        #[trigger] f.group(id) matches Some(g) ==> distinct(g.links) && forall|i: int|
            0 <= i < g.links.len() ==> names((#[trigger] g.links[i]).name) && !g.links[i].name.contains(
                '/',
            )
}

/// Whether a path leads from the root to an object.
pub open spec fn leads(f: FileView, path: Seq<char>, id: nat) -> bool {
    forall|d: nat| #[trigger] followed(f, f.root, components(path, 0), 0, d) == Some(id)
}

proof fn lemma_leads_on(f: FileView, prefix: Seq<char>, cur: nat, i: int)
    requires
        named(f),
        leads(f, prefix, cur),
        f.group(cur) is Some,
        0 <= i < f.group(cur)->0.links.len(),
        f.group(cur)->0.links[i].target is Hard,
    ensures
        leads(
            f,
            prefix + "/"@ + f.group(cur)->0.links[i].name,
            f.group(cur)->0.links[i].target->Hard_0,
        ),
{
    let links = f.group(cur)->0.links;
    let name = links[i].name;
    let id = links[i].target->Hard_0;
    reveal_strlit("/");
    assert("/"@ =~= seq!['/']);
    law_paths_joined(prefix, name);
    assert forall|k: int| 0 <= k < name.len() implies #[trigger] name[k] != '/' by {
        assert(name.contains(name[k]));
    }
    law_name_in_path(name);
    law_link_at(links, name);
    assert(link_at(links, name) == Some(i as nat)) by {
        match link_at(links, name) {
            Some(k) => {
                if k < i {
                    assert(links[k as int].name != links[i].name);
                }
            },
            None => {
                assert(links[i].name != name);
            },
        }
    }
    let p = components(prefix, 0);
    assert forall|d: nat| #[trigger] followed(
        f,
        f.root,
        components(prefix + "/"@ + name, 0),
        0,
        d,
    ) == Some(id) by {
        lemma_followed_joined(f, f.root, p, seq![name], 0, d);
        assert(followed(f, f.root, p, 0, d) == Some(cur));
        assert(seq![name][0] == name);
        assert(followed(f, id, seq![name], 1, d) == Some(id));
    }
}

/// Whether the paths of the groups to visit lead to them.
spec fn queue_leads(f: FileView, queue: Seq<(nat, Seq<char>)>) -> bool {
    forall|i: int| 0 <= i < queue.len() ==> leads(f, (#[trigger] queue[i]).1, queue[i].0)
}

proof fn lemma_scan_leads(
    f: FileView,
    target: nat,
    cur: nat,
    i: int,
    prefix: Seq<char>,
    queue: Seq<(nat, Seq<char>)>,
    seen: Set<nat>,
)
    requires
        named(f),
        leads(f, prefix, cur),
        f.group(cur) is Some,
        0 <= i <= f.group(cur)->0.links.len(),
        queue_leads(f, queue),
    ensures
        ({
            let s = scanned(f, target, f.group(cur)->0.links, i, prefix, queue, seen);
            &&& s.found matches Some(p) ==> leads(f, p, target)
            &&& queue_leads(f, s.queue)
        }),
    decreases f.group(cur)->0.links.len() - i,
{
    let links = f.group(cur)->0.links;
    if i < links.len() {
        match links[i].target {
            TargetView::Hard(id) => {
                lemma_leads_on(f, prefix, cur, i);
                let path = prefix + "/"@ + links[i].name;
                if id == target {
                } else if f.group(id) is Some && !seen.contains(id) {
                    assert(queue_leads(f, queue.push((id, path))));
                    lemma_scan_leads(
                        f,
                        target,
                        cur,
                        i + 1,
                        prefix,
                        queue.push((id, path)),
                        seen.insert(id),
                    );
                } else {
                    lemma_scan_leads(f, target, cur, i + 1, prefix, queue, seen);
                }
            },
            _ => {
                lemma_scan_leads(f, target, cur, i + 1, prefix, queue, seen);
            },
        }
    }
}

proof fn lemma_search_leads(
    f: FileView,
    target: nat,
    queue: Seq<(nat, Seq<char>)>,
    seen: Set<nat>,
)
    requires
        named(f),
        queue_leads(f, queue),
    ensures
        searched(f, target, queue, seen) matches Some(p) ==> leads(f, p, target),
    decreases 2 * unseen(seen, f.objects.len()) + queue.len(),
{
    if queue.len() > 0 {
        let (cur, prefix) = queue[0];
        let rest = queue.skip(1);
        assert(queue_leads(f, rest)) by {
            assert forall|i: int| 0 <= i < rest.len() implies leads(
                f,
                (#[trigger] rest[i]).1,
                rest[i].0,
            ) by {
                assert(rest[i] == queue[i + 1]);
            }
        }
        match f.group(cur) {
            None => {
                lemma_search_leads(f, target, rest, seen);
            },
            Some(g) => {
                assert(leads(f, queue[0].1, queue[0].0));
                lemma_scan_leads(f, target, cur, 0, prefix, rest, seen);
                crate::model::lemma_scan_measure(f, target, g.links, 0, prefix, rest, seen);
                let s = scanned(f, target, g.links, 0, prefix, rest, seen);
                if s.found is None {
                    lemma_search_leads(f, target, s.queue, s.seen);
                }
            },
        }
    }
}

/// The path of an object leads to it, from anywhere in the file.
pub proof fn law_path_leads(f: FileView, start: nat, target: nat)
    requires
        named(f),
    ensures
        path_to(f, target) matches Some(p) ==> p.len() > 0 && p[0] == '/' && resolved(f, start, p)
            == Some(target),
{
    reveal_strlit("/");
    assert("/"@ =~= seq!['/']);
    let none = Seq::<char>::empty();
    law_absolute_path(f, start, none);
    assert(seq!['/'] + none =~= seq!['/']);
    assert(leads(f, none, f.root)) by {
        assert(components(none, 0) =~= Seq::<Seq<char>>::empty());
    }
    let queue = seq![(f.root, none)];
    lemma_search_leads(f, target, queue, set![f.root]);
    if target != f.root {
        if let Some(p) = path_to(f, target) {
            lemma_search_slash(f, target, queue, set![f.root]);
            assert(leads(f, p, target));
            let d = nesting(f.objects);
            assert(followed(f, f.root, components(p, 0), 0, d) == Some(target));
        }
    }
}

/// Whether the paths of the groups to visit are empty or begin with a slash.
spec fn queue_rooted(queue: Seq<(nat, Seq<char>)>) -> bool {
    forall|i: int|
        0 <= i < queue.len() ==> (#[trigger] queue[i]).1.len() == 0 || queue[i].1[0] == '/'
}

proof fn lemma_scan_slash(
    f: FileView,
    target: nat,
    links: Seq<LinkView>,
    i: int,
    prefix: Seq<char>,
    queue: Seq<(nat, Seq<char>)>,
    seen: Set<nat>,
)
    requires
        queue_rooted(queue),
        prefix.len() == 0 || prefix[0] == '/',
        0 <= i,
    ensures
        ({
            let s = scanned(f, target, links, i, prefix, queue, seen);
            &&& s.found matches Some(p) ==> p.len() > 0 && p[0] == '/'
            &&& queue_rooted(s.queue)
        }),
    decreases links.len() - i,
{
    reveal_strlit("/");
    if i < links.len() {
        match links[i].target {
            TargetView::Hard(id) => {
                let path = prefix + "/"@ + links[i].name;
                assert(path[0] == '/');
                if id == target {
                } else if f.group(id) is Some && !seen.contains(id) {
                    assert(queue_rooted(queue.push((id, path))));
                    lemma_scan_slash(
                        f,
                        target,
                        links,
                        i + 1,
                        prefix,
                        queue.push((id, path)),
                        seen.insert(id),
                    );
                } else {
                    lemma_scan_slash(f, target, links, i + 1, prefix, queue, seen);
                }
            },
            _ => {
                lemma_scan_slash(f, target, links, i + 1, prefix, queue, seen);
            },
        }
    }
}

proof fn lemma_search_slash(
    f: FileView,
    target: nat,
    queue: Seq<(nat, Seq<char>)>,
    seen: Set<nat>,
)
    requires
        queue_rooted(queue),
    ensures
        searched(f, target, queue, seen) matches Some(p) ==> p.len() > 0 && p[0] == '/',
    decreases 2 * unseen(seen, f.objects.len()) + queue.len(),
{
    if queue.len() > 0 {
        let (cur, prefix) = queue[0];
        let rest = queue.skip(1);
        assert(queue_rooted(rest)) by {
            assert forall|i: int| 0 <= i < rest.len() implies (#[trigger] rest[i]).1.len() == 0
                || rest[i].1[0] == '/' by {
                assert(rest[i] == queue[i + 1]);
            }
        }
        match f.group(cur) {
            None => {
                lemma_search_slash(f, target, rest, seen);
            },
            Some(g) => {
                assert(queue[0].1.len() == 0 || queue[0].1[0] == '/');
                lemma_scan_slash(f, target, g.links, 0, prefix, rest, seen);
                crate::model::lemma_scan_measure(f, target, g.links, 0, prefix, rest, seen);
                let s = scanned(f, target, g.links, 0, prefix, rest, seen);
                if s.found is None {
                    lemma_search_slash(f, target, s.queue, s.seen);
                }
            },
        }
    }
}

// Making, moving and removing links.

/// A link that was added changes nothing else: every other object stays, and the names
/// that were there lead where they did.
pub proof fn law_link_added_others(
    f: FileView,
    start: nat,
    path: Seq<char>,
    target: TargetView,
    id: nat,
    other: Seq<char>,
)
    requires
        link_added(f, start, path, target).1 is Ok,
        other != link_place(f, start, path)->Ok_0.1,
    ensures
        ({
            let (parent, leaf) = link_place(f, start, path)->Ok_0;
            let g = link_added(f, start, path, target).0;
            &&& id != parent ==> g.object(id) == f.object(id)
            &&& link_at(g.group(parent)->0.links, other) == link_at(f.group(parent)->0.links, other)
            &&& g.group(parent)->0.links.take(f.group(parent)->0.links.len() as int) == f.group(
                parent,
            )->0.links
        }),
{
    let (parent, leaf) = link_place(f, start, path)->Ok_0;
    let before = f.group(parent)->0.links;
    let after = before.push(new_link(f, leaf, target));
    lemma_pushed(before, new_link(f, leaf, target), other);
    assert(after.take(before.len() as int) =~= before);
}

proof fn lemma_pushed(before: Seq<LinkView>, l: LinkView, other: Seq<char>)
    ensures
        l.name != other ==> link_at(before.push(l), other) == link_at(before, other),
        link_at(before, other) is Some ==> link_at(before.push(l), other) == link_at(before, other),
        l.name == other && link_at(before, other) is None ==> link_at(before.push(l), other)
            == Some(before.len()),
{
    let after = before.push(l);
    law_link_at(before, other);
    law_link_at(after, other);
    assert(after[before.len() as int] == l);
    if let Some(k) = link_at(before, other) {
        assert(after[k as int] == before[k as int]);
        let m = link_at(after, other)->0;
        if m < k {
            assert(after[m as int] == before[m as int]);
        }
    } else if let Some(m) = link_at(after, other) {
        if m < before.len() {
            assert(after[m as int] == before[m as int]);
        }
    }
}

proof fn lemma_removed(links: Seq<LinkView>, k: int, other: Seq<char>)
    requires
        0 <= k < links.len(),
        links[k].name != other,
    ensures
        match (link_at(links, other), link_at(links.remove(k), other)) {
            (Some(a), Some(b)) => links[a as int] == links.remove(k)[b as int],
            (None, None) => true,
            _ => false,
        },
{
    let rest = links.remove(k);
    law_link_at(links, other);
    law_link_at(rest, other);
    if let Some(a) = link_at(links, other) {
        let c = if a < k {
            a as int
        } else {
            a - 1
        };
        assert(rest[c] == links[a as int]);
        match link_at(rest, other) {
            None => {
                assert(rest[c].name != other);
            },
            Some(b) => {
                if b < c {
                    let e = if b < k {
                        b as int
                    } else {
                        b as int + 1
                    };
                    assert(links[e] == rest[b as int]);
                    assert(links[e].name != other);
                } else if c < b {
                    assert(rest[c].name != other);
                }
            },
        }
    } else if let Some(b) = link_at(rest, other) {
        let e = if b < k {
            b as int
        } else {
            b as int + 1
        };
        assert(links[e] == rest[b as int]);
    }
}

/// A link that was taken out changes no other link of its group.
pub proof fn law_link_removed_others(f: FileView, start: nat, name: Seq<char>, other: Seq<char>)
    requires
        link_removed(f, start, name).1 is Ok,
        other != name,
    ensures
        ({
            let before = f.group(start)->0.links;
            let after = link_removed(f, start, name).0.group(start)->0.links;
            &&& after.len() + 1 == before.len()
            &&& match (link_at(before, other), link_at(after, other)) {
                (Some(a), Some(b)) => before[a as int] == after[b as int],
                (None, None) => true,
                _ => false,
            }
        }),
{
    let before = f.group(start)->0.links;
    let k = link_at(before, name)->0;
    law_link_at(before, name);
    lemma_removed(before, k as int, other);
    let g = unlinked(f, start, k);
    assert(g.group(start)->0.links == before.remove(k as int));
}

/// A link that was moved leads from its new place where it led before, and is gone from
/// the old one.
pub proof fn law_link_moved(f: FileView, start: nat, name: Seq<char>, path: Seq<char>)
    requires
        link_moved(f, start, name, path).1 is Ok,
        ({
            let k = link_at(f.group(start)->0.links, name)->0;
            let g = unlinked(f, start, k);
            let (parent, leaf) = link_place(g, start, path)->Ok_0;
            &&& !has_link(g, parent, leaf)
            &&& distinct(f.group(start)->0.links)
            &&& parent != start || leaf != name
        }),
    ensures
        ({
            let k = link_at(f.group(start)->0.links, name)->0;
            let old = f.group(start)->0.links[k as int];
            let (parent, leaf) = link_place(unlinked(f, start, k), start, path)->Ok_0;
            let g = link_moved(f, start, name, path).0;
            &&& !has_link(g, start, name)
            &&& has_link(g, parent, leaf)
            &&& ({
                let m = link_at(g.group(parent)->0.links, leaf)->0;
                let new = g.group(parent)->0.links[m as int];
                new.target == old.target && new.creation_order == old.creation_order && new.name
                    == leaf
            })
        }),
{
    let links = f.group(start)->0.links;
    let k = link_at(links, name)->0;
    let old = links[k as int];
    law_link_at(links, name);
    let mid = unlinked(f, start, k);
    let rest = links.remove(k as int);
    assert(mid.group(start)->0.links == rest);
    law_link_at(rest, name);
    assert(link_at(rest, name) is None) by {
        if let Some(j) = link_at(rest, name) {
            let e = if j < k {
                j as int
            } else {
                j as int + 1
            };
            assert(links[e] == rest[j as int]);
            if e < k {
                assert(links[e].name != links[k as int].name);
            } else {
                assert(links[k as int].name != links[e].name);
            }
        }
    }
    let (parent, leaf) = link_place(mid, start, path)->Ok_0;
    let there = mid.group(parent)->0.links;
    let new = LinkView { name: leaf, ..old };
    lemma_pushed(there, new, leaf);
    lemma_pushed(there, new, name);
    let g = link_moved(f, start, name, path).0;
    assert(g.group(parent)->0.links == there.push(new));
    if parent != start {
        assert(g.object(start) == mid.object(start));
    }
}

/// Whether the parts of a path from `i` on, all of them hard links to groups, lead from one
/// group to another.
pub open spec fn group_chain(f: FileView, cur: nat, parts: Seq<Seq<char>>, i: int, last: nat) -> bool
    decreases parts.len() - i,
{
    if i < 0 || i >= parts.len() {
        cur == last
    } else {
        f.group(cur) matches Some(g) && link_at(g.links, parts[i]) matches Some(k)
            && g.links[k as int].target matches TargetView::Hard(id) && f.group(id) is Some
            && group_chain(f, id, parts, i + 1, last)
    }
}

/// What a group of a file holds is there in a later state of the file.
spec fn groups_stay(f: FileView, g: FileView) -> bool {
    &&& f.objects.len() <= g.objects.len()
    &&& forall|id: nat, name: Seq<char>|
        f.group(id) is Some && (#[trigger] link_at(f.group(id)->0.links, name)) is Some ==> g.group(
            id,
        ) is Some && link_at(g.group(id)->0.links, name) == link_at(f.group(id)->0.links, name)
            && g.group(id)->0.links[link_at(f.group(id)->0.links, name)->0 as int] == f.group(
            id,
        )->0.links[link_at(f.group(id)->0.links, name)->0 as int]
    &&& forall|id: nat| #[trigger] f.group(id) is Some ==> g.group(id) is Some
}

proof fn lemma_added_stays(f: FileView, cur: nat, name: Seq<char>, time: u32)
    requires
        f.group(cur) is Some,
        link_at(f.group(cur)->0.links, name) is None,
    ensures
        ({
            let g = group_added(f, cur, name, time);
            let id = f.objects.len();
            &&& groups_stay(f, g)
            &&& g.group(id) is Some
            &&& g.group(id)->0.links.len() == 0
            &&& link_at(g.group(cur)->0.links, name) == Some(f.group(cur)->0.links.len())
            &&& g.group(cur)->0.links[f.group(cur)->0.links.len() as int].target
                == TargetView::Hard(id)
            &&& g.group(cur) is Some
        }),
{
    let g = group_added(f, cur, name, time);
    let id = f.objects.len();
    let l = new_link(f, name, TargetView::Hard(id));
    let before = f.group(cur)->0.links;
    lemma_pushed(before, l, name);
    assert(cur < id);
    assert(g.group(cur)->0.links == before.push(l));
    assert forall|x: nat, n: Seq<char>|
        f.group(x) is Some && (#[trigger] link_at(f.group(x)->0.links, n)) is Some implies g.group(
        x,
    ) is Some && link_at(g.group(x)->0.links, n) == link_at(f.group(x)->0.links, n) && g.group(
        x,
    )->0.links[link_at(f.group(x)->0.links, n)->0 as int] == f.group(x)->0.links[link_at(
        f.group(x)->0.links,
        n,
    )->0 as int] by {
        law_link_at(f.group(x)->0.links, n);
        if x == cur {
            lemma_pushed(before, l, n);
        } else {
            assert(g.objects[x as int] == f.objects[x as int]);
        }
    }
    assert forall|x: nat| #[trigger] f.group(x) is Some implies g.group(x) is Some by {
        if x != cur {
            assert(g.objects[x as int] == f.objects[x as int]);
        }
    }
}

proof fn lemma_stays_chain(f: FileView, g: FileView, h: FileView)
    requires
        groups_stay(f, g),
        groups_stay(g, h),
    ensures
        groups_stay(f, h),
{
    assert forall|id: nat, name: Seq<char>|
        f.group(id) is Some && (#[trigger] link_at(f.group(id)->0.links, name)) is Some implies h.group(
        id,
    ) is Some && link_at(h.group(id)->0.links, name) == link_at(f.group(id)->0.links, name)
        && h.group(id)->0.links[link_at(f.group(id)->0.links, name)->0 as int] == f.group(
        id,
    )->0.links[link_at(f.group(id)->0.links, name)->0 as int] by {
        assert(link_at(g.group(id)->0.links, name) is Some);
    }
    assert forall|id: nat| #[trigger] f.group(id) is Some implies h.group(id) is Some by {
        assert(g.group(id) is Some);
    }
}

proof fn lemma_groups_made(f: FileView, cur: nat, parts: Seq<Seq<char>>, i: int, time: u32)
    requires
        0 <= i <= parts.len(),
        groups_made(f, cur, parts, i, time).1 is Ok,
        f.group(cur) is Some,
    ensures
        ({
            let (g, r) = groups_made(f, cur, parts, i, time);
            &&& groups_stay(f, g)
            &&& g.group(r->Ok_0) is Some
            &&& group_chain(g, cur, parts, i, r->Ok_0)
        }),
    decreases parts.len() - i,
{
    if i < parts.len() {
        let g = f.group(cur)->0;
        match link_at(g.links, parts[i]) {
            Some(k) => {
                let id = g.links[k as int].target->Hard_0;
                lemma_groups_made(f, id, parts, i + 1, time);
                let (last, r) = groups_made(f, cur, parts, i, time);
                assert(link_at(last.group(cur)->0.links, parts[i]) == Some(k));
                assert(last.group(id) is Some);
            },
            None => {
                let next = group_added(f, cur, parts[i], time);
                let id = f.objects.len();
                lemma_added_stays(f, cur, parts[i], time);
                lemma_groups_made(next, id, parts, i + 1, time);
                let (last, r) = groups_made(f, cur, parts, i, time);
                lemma_stays_chain(f, next, last);
                assert(link_at(next.group(cur)->0.links, parts[i]) is Some);
                assert(last.group(id) is Some);
            },
        }
    }
}

/// A group that was made is where its path leads, and what the groups held before is
/// still there.
pub proof fn law_group_created(f: FileView, start: nat, name: Seq<char>, time: u32)
    requires
        group_created(f, start, name, time).1 is Ok,
        f.group(start_of(f, start, name)) is Some,
    ensures
        ({
            let (g, r) = group_created(f, start, name, time);
            &&& g.group(r->Ok_0) is Some
            &&& group_chain(g, start_of(f, start, name), pieces(name, 0), 0, r->Ok_0)
            &&& forall|id: nat, n: Seq<char>|
                f.group(id) is Some && (#[trigger] link_at(f.group(id)->0.links, n)) is Some
                    ==> g.group(id) is Some && link_at(g.group(id)->0.links, n) == link_at(
                    f.group(id)->0.links,
                    n,
                )
        }),
{
    lemma_groups_made(f, start_of(f, start, name), pieces(name, 0), 0, time);
}

// Traversals.

/// Whether the links stand in the order of their creation.
pub open spec fn creation_rises(v: Seq<LinkView>) -> bool {
    forall|i: int, j: int|
        0 <= i < j < v.len() ==> (#[trigger] v[i]).creation_order <= (
        #[trigger] v[j]).creation_order
}

proof fn lemma_creation_place(list: Seq<LinkView>, order: i64)
    requires
        creation_rises(list),
    ensures
        order_place(list, order) <= list.len(),
        forall|i: int|
            0 <= i < order_place(list, order) ==> (#[trigger] list[i]).creation_order <= order,
        forall|i: int|
            order_place(list, order) <= i < list.len() ==> (#[trigger] list[i]).creation_order
                > order,
    decreases list.len(),
{
    if list.len() > 0 {
        if list.last().creation_order <= order {
            assert forall|i: int| 0 <= i < list.len() implies (#[trigger] list[i]).creation_order
                <= order by {
                if i < list.len() - 1 {
                    assert(list[i].creation_order <= list[list.len() - 1].creation_order);
                }
            }
        } else {
            let init = list.drop_last();
            assert(creation_rises(init)) by {
                assert forall|i: int, j: int| 0 <= i < j < init.len() implies (
                #[trigger] init[i]).creation_order <= (#[trigger] init[j]).creation_order by {
                    assert(list[i].creation_order <= list[j].creation_order);
                }
            }
            lemma_creation_place(init, order);
            assert forall|i: int|
                0 <= i < order_place(list, order) implies (#[trigger] list[i]).creation_order
                <= order by {
                assert(init[i].creation_order <= order);
            }
            assert forall|i: int|
                order_place(list, order) <= i < list.len() implies (
            #[trigger] list[i]).creation_order > order by {
                if i < init.len() {
                    assert(init[i].creation_order > order);
                }
            }
        }
    }
}

/// Links that were put in the order of their creation are the same links, in that order.
pub proof fn law_by_creation(list: Seq<LinkView>)
    ensures
        creation_rises(by_creation(list)),
        by_creation(list).to_multiset() == list.to_multiset(),
        by_creation(list).len() == list.len(),
    decreases list.len(),
{
    if list.len() > 0 {
        let v = by_creation(list.drop_last());
        let x = list.last();
        law_by_creation(list.drop_last());
        lemma_creation_place(v, x.creation_order);
        let k = order_place(v, x.creation_order) as int;
        let w = v.insert(k, x);
        assert forall|i: int, j: int| 0 <= i < j < w.len() implies (#[trigger] w[i]).creation_order
            <= (#[trigger] w[j]).creation_order by {
            if i < k {
                assert(w[i] == v[i]);
                assert(v[i].creation_order <= x.creation_order);
            } else if i > k {
                assert(w[i] == v[i - 1]);
            }
            if j < k {
                assert(w[j] == v[j]);
            } else if j > k {
                assert(w[j] == v[j - 1]);
                assert(v[j - 1].creation_order > x.creation_order);
            }
        }
        vstd::seq_lib::to_multiset_insert(v, k, x);
        assert(list =~= list.drop_last().push(x));
        vstd::seq_lib::to_multiset_build(list.drop_last(), x);
    }
}

/// One byte string comes before another where they first differ and it has the lower byte
/// there, or has ended.
pub proof fn law_bytes_before(a: Seq<u8>, b: Seq<u8>, k: int)
    requires
        0 <= k <= a.len(),
        k <= b.len(),
        forall|i: int| 0 <= i < k ==> #[trigger] a[i] == b[i],
        k < a.len() && k < b.len() ==> a[k] != b[k],
    ensures
        bytes_before(a, b) <==> k < b.len() && (k == a.len() || a[k] < b[k]),
    decreases k,
{
    if k > 0 {
        assert(a[0] == b[0]);
        let (x, y) = (a.skip(1), b.skip(1));
        assert forall|i: int| 0 <= i < k - 1 implies #[trigger] x[i] == y[i] by {
            assert(a[i + 1] == b[i + 1]);
        }
        law_bytes_before(x, y, k - 1);
    }
}

proof fn lemma_not_before(a: Seq<u8>, b: Seq<u8>, c: Seq<u8>)
    requires
        !bytes_before(b, a),
        !bytes_before(c, b),
    ensures
        !bytes_before(c, a),
    decreases a.len(),
{
    if a.len() > 0 && b.len() > 0 && c.len() > 0 && a[0] == b[0] && b[0] == c[0] {
        lemma_not_before(a.skip(1), b.skip(1), c.skip(1));
    }
}

proof fn lemma_before_not(a: Seq<u8>, b: Seq<u8>)
    requires
        bytes_before(a, b),
    ensures
        !bytes_before(b, a),
    decreases a.len(),
{
    if a.len() > 0 && a[0] == b[0] {
        lemma_before_not(a.skip(1), b.skip(1));
    }
}

/// Whether no link stands behind one whose name comes after its own.
pub open spec fn names_rise(v: Seq<LinkView>) -> bool {
    forall|i: int, j: int|
        0 <= i < j < v.len() ==> !bytes_before(
            encode_utf8((#[trigger] v[j]).name),
            encode_utf8((#[trigger] v[i]).name),
        )
}

proof fn lemma_name_place(list: Seq<LinkView>, name: Seq<char>)
    requires
        names_rise(list),
    ensures
        name_place(list, name) <= list.len(),
        forall|i: int|
            0 <= i < name_place(list, name) ==> !bytes_before(
                encode_utf8(name),
                encode_utf8((#[trigger] list[i]).name),
            ),
        forall|i: int|
            name_place(list, name) <= i < list.len() ==> bytes_before(
                encode_utf8(name),
                encode_utf8((#[trigger] list[i]).name),
            ),
    decreases list.len(),
{
    let x = encode_utf8(name);
    if list.len() > 0 {
        let last = encode_utf8(list.last().name);
        if !bytes_before(x, last) {
            assert forall|i: int| 0 <= i < list.len() implies !bytes_before(
                x,
                encode_utf8((#[trigger] list[i]).name),
            ) by {
                if i < list.len() - 1 {
                    assert(!bytes_before(
                        encode_utf8(list[list.len() - 1].name),
                        encode_utf8(list[i].name),
                    ));
                    lemma_not_before(encode_utf8(list[i].name), last, x);
                }
            }
        } else {
            let init = list.drop_last();
            assert(names_rise(init)) by {
                assert forall|i: int, j: int| 0 <= i < j < init.len() implies !bytes_before(
                    encode_utf8((#[trigger] init[j]).name),
                    encode_utf8((#[trigger] init[i]).name),
                ) by {
                    assert(!bytes_before(encode_utf8(list[j].name), encode_utf8(list[i].name)));
                }
            }
            lemma_name_place(init, name);
            assert forall|i: int| 0 <= i < name_place(list, name) implies !bytes_before(
                x,
                encode_utf8((#[trigger] list[i]).name),
            ) by {
                assert(!bytes_before(x, encode_utf8(init[i].name)));
            }
            assert forall|i: int| name_place(list, name) <= i < list.len() implies bytes_before(
                x,
                encode_utf8((#[trigger] list[i]).name),
            ) by {
                if i < init.len() {
                    assert(bytes_before(x, encode_utf8(init[i].name)));
                }
            }
        }
    }
}

/// Links that were put in the order of their names are the same links, in that order.
pub proof fn law_by_name(list: Seq<LinkView>)
    ensures
        names_rise(by_name(list)),
        by_name(list).to_multiset() == list.to_multiset(),
    decreases list.len(),
{
    law_by_name_keeps(list);
    if list.len() > 0 {
        let v = by_name(list.drop_last());
        let x = list.last();
        law_by_name(list.drop_last());
        lemma_name_place(v, x.name);
        let k = name_place(v, x.name) as int;
        let w = v.insert(k, x);
        assert forall|i: int, j: int| 0 <= i < j < w.len() implies !bytes_before(
            encode_utf8((#[trigger] w[j]).name),
            encode_utf8((#[trigger] w[i]).name),
        ) by {
            if i < k {
                assert(w[i] == v[i]);
                assert(!bytes_before(encode_utf8(x.name), encode_utf8(v[i].name)));
            } else if i > k {
                assert(w[i] == v[i - 1]);
            }
            if j < k {
                assert(w[j] == v[j]);
            } else if j > k {
                assert(w[j] == v[j - 1]);
                assert(bytes_before(encode_utf8(x.name), encode_utf8(v[j - 1].name)));
                lemma_before_not(encode_utf8(x.name), encode_utf8(v[j - 1].name));
                if i < k {
                    assert(!bytes_before(encode_utf8(v[j - 1].name), encode_utf8(v[i].name)));
                } else if i > k {
                    assert(!bytes_before(encode_utf8(v[j - 1].name), encode_utf8(v[i - 1].name)));
                }
            }
        }
    }
}

/// A traversal visits each link of a group once: in the order of creation, from the
/// first on or from the last on.
pub proof fn law_traversal(
    links: Seq<LinkView>,
    direction: IterationOrder,
    i: int,
    j: int,
)
    requires
        0 <= i < j < links.len(),
    ensures
        ({
            let v = traversed(links, TraversalOrder::Creation, direction);
            &&& v.len() == links.len()
            &&& direction is Decreasing ==> v[i].creation_order >= v[j].creation_order
            &&& !(direction is Decreasing) ==> v[i].creation_order <= v[j].creation_order
        }),
        ({
            let up = traversed(links, TraversalOrder::Creation, IterationOrder::Increasing);
            up.to_multiset() == links.to_multiset()
        }),
{
    law_by_creation(links);
    let s = by_creation(links);
    let n = s.len();
    assert(s[i].creation_order <= s[j].creation_order);
    assert(s[n - 1 - j].creation_order <= s[n - 1 - i].creation_order);
}

/// The members of a kind are the objects of that kind to which hard links lead.
pub proof fn law_members(f: FileView, links: Seq<LinkView>, kind: MemberKind, id: nat)
    ensures
        members(f, links, kind).contains(id) <==> of_kind(f, id, kind) && exists|i: int|
            0 <= i < links.len() && (#[trigger] links[i]).target == TargetView::Hard(id),
    decreases links.len(),
{
    if links.len() > 0 {
        let init = links.drop_last();
        law_members(f, init, kind, id);
        let before = members(f, init, kind);
        let all = members(f, links, kind);
        if all.contains(id) {
            let p = all.index_of(id);
            if p < before.len() {
                assert(before[p] == id);
                assert(before.contains(id));
                let i = choose|i: int|
                    0 <= i < init.len() && (#[trigger] init[i]).target == TargetView::Hard(id);
                assert(links[i].target == TargetView::Hard(id));
            } else {
                assert(links[links.len() - 1].target == TargetView::Hard(id));
            }
        }
        if of_kind(f, id, kind) && exists|i: int|
            0 <= i < links.len() && (#[trigger] links[i]).target == TargetView::Hard(id) {
            let i = choose|i: int|
                0 <= i < links.len() && (#[trigger] links[i]).target == TargetView::Hard(id);
            if i < init.len() {
                assert(init[i].target == TargetView::Hard(id));
                assert(before.contains(id));
                let p = before.index_of(id);
                assert(all[p] == id);
            } else {
                assert(all[before.len() as int] == id);
            }
        }
    }
}

} // verus!
