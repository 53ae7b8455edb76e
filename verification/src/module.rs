//! Modules and the hierarchical module registry: a tree keyed by the
//! segments of dotted names, each node optionally holding one module.
//!
//! The abstract state of the registry is the partial map `bound` from
//! segment paths to modules; `add_module` either reports a collision and
//! changes nothing, or updates that map at exactly one path.

use vstd::prelude::*;
use crate::ast::Expression;
use crate::trie::{char_index, index_from};

verus! {

broadcast use vstd::seq::axiom_seq_index_decreases;

/// The segments of a dotted name, split at every `.`.
pub open spec fn segments(s: Seq<char>) -> Seq<Seq<char>>
    decreases s.len(),
{
    let d = char_index(s, '.');
    if d < 0 || d >= s.len() {
        seq![s]
    } else {
        seq![s.take(d)] + segments(s.skip(d + 1))
    }
}

proof fn lemma_segments_nonempty(s: Seq<char>)
    ensures
        segments(s).len() >= 1,
    decreases s.len(),
{
    let d = char_index(s, '.');
    if d >= 0 {
        lemma_index_char(s, '.');
        lemma_segments_nonempty(s.skip(d + 1));
    }
}

proof fn lemma_index_char(s: Seq<char>, c: char)
    ensures
        char_index(s, c) >= 0 ==> 0 <= char_index(s, c) < s.len() && s[char_index(s, c)] == c
            && (forall|j: int| 0 <= j < char_index(s, c) ==> s[j] != c),
        char_index(s, c) < 0 ==> forall|j: int| 0 <= j < s.len() ==> s[j] != c,
    decreases s.len(),
{
    lemma_index_char_from(s, c, 0);
}

proof fn lemma_index_char_from(s: Seq<char>, c: char, i: int)
    requires
        0 <= i <= s.len(),
    ensures
        index_from(s, c, i) >= 0 ==> i <= index_from(s, c, i) < s.len() && s[index_from(s, c, i)]
            == c && (forall|j: int| i <= j < index_from(s, c, i) ==> s[j] != c),
        index_from(s, c, i) < 0 ==> forall|j: int| i <= j < s.len() ==> s[j] != c,
    decreases s.len() - i,
{
    if i < s.len() && s[i] != c {
        lemma_index_char_from(s, c, i + 1);
    }
}

/// If `d` is the index of the last dot (or -1 when there is none), the last
/// segment is everything after it.
proof fn lemma_segments_last(s: Seq<char>, d: int)
    requires
        -1 <= d < s.len() || (d == -1 && s.len() == 0),
        d >= 0 ==> s[d] == '.',
        forall|j: int| d < j < s.len() ==> s[j] != '.',
    ensures
        segments(s).last() =~= (if d < 0 {
            s
        } else {
            s.skip(d + 1)
        }),
    decreases s.len(),
{
    lemma_segments_nonempty(s);
    lemma_index_char(s, '.');
    let f = char_index(s, '.');
    if f < 0 {
        assert(d < 0);
    } else {
        assert(d >= f);
        let rest = s.skip(f + 1);
        lemma_segments_nonempty(rest);
        assert(segments(s).last() == segments(rest).last());
        let d2 = d - f - 1;
        assert forall|j: int| d2 < j < rest.len() implies rest[j] != '.' by {
            assert(rest[j] == s[f + 1 + j]);
        }
        if d2 >= 0 {
            assert(rest[d2] == s[d]);
        }
        lemma_segments_last(rest, d2);
        if d2 >= 0 {
            assert(rest.skip(d2 + 1) =~= s.skip(d + 1));
        } else {
            assert(rest =~= s.skip(d + 1));
        }
    }
}

/// A named module: its full dotted name, its last path segment, and its
/// non-module top-level declarations in source order.
#[derive(Debug)]
pub struct Module {
    name: String,
    local_name: String,
    module_code: Vec<Expression>,
}

impl Module {
    /// The full dotted name.
    pub closed spec fn spec_name(self) -> Seq<char> {
        self.name@
    }

    /// The last path segment of the name.
    pub closed spec fn spec_local_name(self) -> Seq<char> {
        self.local_name@
    }

    /// The declarations the module holds.
    pub closed spec fn spec_code(self) -> Seq<Expression> {
        self.module_code@
    }

    /// A module under the given dotted name; the local name is the last
    /// dot-separated segment.
    pub fn new(name: &str, module_code: Vec<Expression>) -> (m: Module)
        ensures
            m.spec_name() == name@,
            m.spec_local_name() =~= segments(name@).last(),
            m.spec_code() == module_code@,
    {
        let n = name.unicode_len();
        let mut last_dot: Option<usize> = None;
        let mut i: usize = 0;
        while i < n
            invariant
                n == name@.len(),
                i <= n,
                match last_dot {
                    Some(d) => d < i && name@[d as int] == '.' && (forall|j: int|
                        d < j < i ==> name@[j] != '.'),
                    None => forall|j: int| 0 <= j < i ==> name@[j] != '.',
                },
            decreases n - i,
        {
            if name.get_char(i) == '.' {
                last_dot = Some(i);
            }
            i += 1;
        }
        let local_name = match last_dot {
            Some(d) => {
                let tail = name.substring_char(d + 1, n);
                proof {
                    lemma_segments_last(name@, d as int);
                    assert(tail@ =~= name@.skip(d as int + 1));
                }
                tail.to_owned()
            },
            None => {
                proof {
                    lemma_segments_last(name@, -1);
                }
                name.to_owned()
            },
        };
        Module { name: name.to_owned(), local_name, module_code }
    }

    /// The full dotted name of the module.
    pub fn get_full_name(&self) -> (r: String)
        ensures
            r@ == self.spec_name(),
    {
        self.name.clone()
    }

    /// The last path segment of the module's name.
    pub fn get_local_name(&self) -> (r: String)
        ensures
            r@ == self.spec_local_name(),
    {
        self.local_name.clone()
    }
}

/// A collision: some module was already bound at the targeted path.
#[derive(Debug)]
pub struct RegistryError {
    /// The full name of the module that could not be added.
    pub name: String,
}

#[derive(Debug)]
struct ModuleNode {
    module: Option<Module>,
    children: Vec<(String, ModuleNode)>,
}

/// First index of the child keyed `key` at or after `i`, or -1.
spec fn child_index_from(ch: Seq<(String, ModuleNode)>, key: Seq<char>, i: int) -> int
    decreases ch.len() - i,
{
    if i < 0 || i >= ch.len() {
        -1
    } else if ch[i].0@ == key {
        i
    } else {
        child_index_from(ch, key, i + 1)
    }
}

proof fn lemma_child_index(ch: Seq<(String, ModuleNode)>, key: Seq<char>, i: int)
    requires
        0 <= i <= ch.len(),
    ensures
        child_index_from(ch, key, i) >= 0 ==> i <= child_index_from(ch, key, i) < ch.len()
            && ch[child_index_from(ch, key, i)].0@ == key && (forall|j: int|
            i <= j < child_index_from(ch, key, i) ==> ch[j].0@ != key),
        child_index_from(ch, key, i) < 0 ==> forall|j: int| i <= j < ch.len() ==> ch[j].0@ != key,
    decreases ch.len() - i,
{
    if i < ch.len() && ch[i].0@ != key {
        lemma_child_index(ch, key, i + 1);
    }
}

/// The module bound below `n` at the given segment path.
spec fn node_bound(n: ModuleNode, path: Seq<Seq<char>>) -> Option<Module>
    decreases path.len(),
{
    if path.len() == 0 {
        n.module
    } else {
        let i = child_index_from(n.children@, path[0], 0);
        if i < 0 {
            None
        } else {
            node_bound(n.children@[i].1, path.skip(1))
        }
    }
}

impl ModuleNode {
    fn new() -> (n: ModuleNode)
        ensures
            n.module is None,
            n.children@.len() == 0,
            forall|p: Seq<Seq<char>>| node_bound(n, p) is None,
    {
        let n = ModuleNode { module: None, children: Vec::new() };
        proof {
            assert forall|p: Seq<Seq<char>>| node_bound(n, p) is None by {
                if p.len() > 0 {
                    assert(child_index_from(n.children@, p[0], 0) < 0);
                }
            }
        }
        n
    }
}

/// The root of the module namespace tree.
#[derive(Debug)]
pub struct ModuleManager {
    module_map: ModuleNode,
}

impl ModuleManager {
    /// The module bound at a segment path, if any.
    pub closed spec fn bound(self, path: Seq<Seq<char>>) -> Option<Module> {
        node_bound(self.module_map, path)
    }

    /// An empty registry.
    pub fn new() -> (mm: ModuleManager)
        ensures
            forall|p: Seq<Seq<char>>| mm.bound(p) is None,
    {
        ModuleManager { module_map: ModuleNode::new() }
    }

    /// Inserts `m` under the path of the dotted name `s`.  Fails, changing
    /// nothing, exactly when a module is already bound at that very path;
    /// otherwise binds `m` there and nowhere else.
    pub fn add_module(&mut self, s: &str, m: Module) -> (r: Result<(), RegistryError>)
        ensures
            match r {
                Ok(_) => old(self).bound(segments(s@)) is None && forall|p: Seq<Seq<char>>|
                    #[trigger] final(self).bound(p) == (if p =~= segments(s@) {
                        Some(m)
                    } else {
                        old(self).bound(p)
                    }),
                Err(e) => old(self).bound(segments(s@)) is Some && (forall|p: Seq<Seq<char>>|
                    #[trigger] final(self).bound(p) == old(self).bound(p)) && e.name@
                    == m.spec_name(),
            },
    {
        let full = m.get_full_name();
        match node_add(&mut self.module_map, s, m) {
            Ok(()) => Ok(()),
            Err(()) => Err(RegistryError { name: full }),
        }
    }

    /// Whether a module is bound at the path of the dotted name `s`.
    pub fn contains_module(&self, s: &str) -> (r: bool)
        ensures
            r == self.bound(segments(s@)) is Some,
    {
        node_contains(&self.module_map, s)
    }
}

fn find_char(s: &str, c: char) -> (r: Option<usize>)
    ensures
        match r {
            Some(i) => char_index(s@, c) == i as int && (i as int) < s@.len(),
            None => char_index(s@, c) < 0,
        },
{
    let n = s.unicode_len();
    let mut i: usize = 0;
    while i < n
        invariant
            n == s@.len(),
            i <= n,
            char_index(s@, c) == index_from(s@, c, i as int),
        decreases n - i,
    {
        if s.get_char(i) == c {
            return Some(i);
        }
        i += 1;
    }
    None
}

fn find_child(ch: &Vec<(String, ModuleNode)>, key: &String) -> (r: Option<usize>)
    ensures
        match r {
            Some(i) => child_index_from(ch@, key@, 0) == i as int && (i as int) < ch@.len(),
            None => child_index_from(ch@, key@, 0) < 0,
        },
{
    let mut i: usize = 0;
    while i < ch.len()
        invariant
            i <= ch@.len(),
            child_index_from(ch@, key@, 0) == child_index_from(ch@, key@, i as int),
        decreases ch@.len() - i,
    {
        if *key == ch[i].0 {
            return Some(i);
        }
        i += 1;
    }
    None
}

proof fn lemma_child_index_same_keys(
    ch1: Seq<(String, ModuleNode)>,
    ch2: Seq<(String, ModuleNode)>,
    key: Seq<char>,
    i: int,
)
    requires
        0 <= i <= ch1.len(),
        ch2.len() == ch1.len(),
        forall|j: int| 0 <= j < ch1.len() ==> (#[trigger] ch2[j]).0@ == ch1[j].0@,
    ensures
        child_index_from(ch2, key, i) == child_index_from(ch1, key, i),
    decreases ch1.len() - i,
{
    if i < ch1.len() && ch1[i].0@ != key {
        lemma_child_index_same_keys(ch1, ch2, key, i + 1);
    }
}

proof fn lemma_child_index_push(
    ch: Seq<(String, ModuleNode)>,
    x: (String, ModuleNode),
    key: Seq<char>,
    i: int,
)
    requires
        0 <= i <= ch.len(),
    ensures
        child_index_from(ch.push(x), key, i) == (if child_index_from(ch, key, i) >= 0 {
            child_index_from(ch, key, i)
        } else if x.0@ == key {
            ch.len() as int
        } else {
            -1
        }),
    decreases ch.len() - i,
{
    if i < ch.len() {
        assert(ch.push(x)[i] == ch[i]);
        if ch[i].0@ != key {
            lemma_child_index_push(ch, x, key, i + 1);
        } else {
            assert(child_index_from(ch.push(x), key, i) == i);
        }
    } else {
        assert(child_index_from(ch, key, i) == -1);
        assert(ch.push(x)[ch.len() as int] == x);
        if x.0@ == key {
            assert(child_index_from(ch.push(x), key, i) == i);
        } else {
            assert(child_index_from(ch.push(x), key, i + 1) == -1);
        }
    }
}

fn node_add(n: &mut ModuleNode, name: &str, m: Module) -> (r: Result<(), ()>)
    ensures
        match r {
            Ok(_) => node_bound(*old(n), segments(name@)) is None && forall|p: Seq<Seq<char>>|
                #[trigger] node_bound(*final(n), p) == (if p =~= segments(name@) {
                    Some(m)
                } else {
                    node_bound(*old(n), p)
                }),
            Err(_) => node_bound(*old(n), segments(name@)) is Some && forall|p: Seq<Seq<char>>|
                #[trigger] node_bound(*final(n), p) == node_bound(*old(n), p),
        },
    decreases name@.len(),
{
    let ghost n0 = *n;
    let ghost path = segments(name@);
    let ln = name.unicode_len();
    let dopt = find_char(name, '.');
    let key_str: String;
    let rest: Option<&str>;
    match dopt {
        Some(d) => {
            key_str = name.substring_char(0, d).to_owned();
            rest = Some(name.substring_char(d + 1, ln));
        },
        None => {
            key_str = name.to_owned();
            rest = None;
        },
    }
    let ghost subpath: Seq<Seq<char>> = match rest {
        Some(r_str) => segments(r_str@),
        None => Seq::empty(),
    };
    proof {
        match dopt {
            Some(d) => {
                assert(key_str@ =~= name@.take(d as int));
                assert(rest->Some_0@ =~= name@.skip(d as int + 1));
                assert(path == seq![key_str@] + subpath);
            },
            None => {
                assert(path == seq![name@]);
                assert(path =~= seq![key_str@] + subpath);
            },
        }
        assert(path =~= seq![key_str@] + subpath);
        assert(path.len() == 1 + subpath.len());
        assert(path[0] == key_str@);
        assert(path.skip(1) =~= subpath);
    }
    match find_child(&n.children, &key_str) {
        Some(i) => {
            let ghost ch0 = n.children@;
            let (k, mut child) = n.children.remove(i);
            let ghost child0 = child;
            proof {
                assert(ch0[i as int] == (k, child0));
            }
            let res: Result<(), ()> = match rest {
                Some(r_str) => node_add(&mut child, r_str, m),
                None => {
                    if child.module.is_some() {
                        Err(())
                    } else {
                        child.module = Some(m);
                        proof {
                            assert forall|q: Seq<Seq<char>>| #[trigger] node_bound(child, q) == (
                            if q =~= subpath {
                                Some(m)
                            } else {
                                node_bound(child0, q)
                            }) by {
                                if q.len() == 0 {
                                    assert(q =~= subpath);
                                } else {
                                    assert(!(q =~= subpath));
                                }
                            }
                        }
                        Ok(())
                    }
                },
            };
            n.children.insert(i, (k, child));
            proof {
                let ch2 = n.children@;
                assert(ch2 =~= ch0.update(i as int, (k, child)));
                assert forall|j: int| 0 <= j < ch0.len() implies (#[trigger] ch2[j]).0@
                    == ch0[j].0@ by {}
                // Binding facts of the updated child, uniform over both cases.
                assert(match res {
                    Ok(_) => node_bound(child0, subpath) is None && forall|q: Seq<Seq<char>>|
                        #[trigger] node_bound(child, q) == (if q =~= subpath {
                            Some(m)
                        } else {
                            node_bound(child0, q)
                        }),
                    Err(_) => node_bound(child0, subpath) is Some && forall|q: Seq<Seq<char>>|
                        #[trigger] node_bound(child, q) == node_bound(child0, q),
                });
                // The path routes through child i.
                assert(child_index_from(ch0, key_str@, 0) == i as int);
                lemma_child_index(ch0, key_str@, 0);
                assert(node_bound(n0, path) == node_bound(child0, subpath));
                assert forall|p: Seq<Seq<char>>| #[trigger] node_bound(*n, p) == (match res {
                    Ok(_) => if p =~= path {
                        Some(m)
                    } else {
                        node_bound(n0, p)
                    },
                    Err(_) => node_bound(n0, p),
                }) by {
                    if p.len() == 0 {
                        assert(!(p =~= path));
                    } else {
                        lemma_child_index_same_keys(ch0, ch2, p[0], 0);
                        let ci = child_index_from(ch0, p[0], 0);
                        lemma_child_index(ch0, p[0], 0);
                        if ci < 0 {
                            assert(!(p =~= path)) by {
                                if p =~= path {
                                    assert(p[0] == key_str@);
                                }
                            }
                        } else if ci != i as int {
                            assert(ch2[ci] == ch0[ci]);
                            assert(!(p =~= path)) by {
                                if p =~= path {
                                    assert(p[0] == key_str@);
                                }
                            }
                        } else {
                            assert(p[0] == key_str@);
                            assert(node_bound(*n, p) == node_bound(child, p.skip(1)));
                            assert(node_bound(n0, p) == node_bound(child0, p.skip(1)));
                            assert((p =~= path) <==> (p.skip(1) =~= subpath)) by {
                                if p.skip(1) =~= subpath {
                                    assert(p =~= seq![p[0]] + p.skip(1));
                                    assert(seq![p[0]] + p.skip(1) =~= seq![key_str@] + subpath);
                                }
                                if p =~= path {
                                    assert(p.skip(1) =~= path.skip(1));
                                }
                            }
                        }
                    }
                }
            }
            res
        },
        None => {
            let ghost ch0 = n.children@;
            let mut child = ModuleNode::new();
            let ghost fresh = child;
            let res: Result<(), ()> = match rest {
                Some(r_str) => node_add(&mut child, r_str, m),
                None => {
                    child.module = Some(m);
                    Ok(())
                },
            };
            proof {
                if res is Err {
                    assert(node_bound(fresh, subpath) is Some);
                    assert(false);
                }
                assert forall|q: Seq<Seq<char>>| #[trigger] node_bound(child, q) == (if q
                    =~= subpath {
                    Some(m)
                } else {
                    None
                }) by {
                    match rest {
                        Some(_) => {
                            assert(node_bound(child, q) == (if q =~= subpath {
                                Some(m)
                            } else {
                                node_bound(fresh, q)
                            }));
                        },
                        None => {
                            if q.len() == 0 {
                                assert(q =~= subpath);
                            } else {
                                assert(!(q =~= subpath));
                                assert(node_bound(child, q) is None) by {
                                    assert(child_index_from(child.children@, q[0], 0) < 0);
                                }
                            }
                        },
                    }
                }
            }
            let x = (key_str, child);
            n.children.push(x);
            proof {
                let ch2 = n.children@;
                assert(ch2 == ch0.push(x));
                assert(child_index_from(ch0, key_str@, 0) < 0);
                lemma_child_index(ch0, key_str@, 0);
                assert(node_bound(n0, path) is None);
                assert forall|p: Seq<Seq<char>>| #[trigger] node_bound(*n, p) == (if p =~= path {
                    Some(m)
                } else {
                    node_bound(n0, p)
                }) by {
                    if p.len() == 0 {
                        assert(!(p =~= path));
                    } else {
                        lemma_child_index_push(ch0, x, p[0], 0);
                        let ci = child_index_from(ch0, p[0], 0);
                        lemma_child_index(ch0, p[0], 0);
                        if ci >= 0 {
                            assert(ch2[ci] == ch0[ci]);
                            assert(p[0] != key_str@);
                            assert(!(p =~= path));
                        } else if p[0] == key_str@ {
                            assert(child_index_from(ch2, p[0], 0) == ch0.len() as int);
                            assert(ch2[ch0.len() as int] == x);
                            assert(node_bound(*n, p) == node_bound(child, p.skip(1)));
                            assert(node_bound(n0, p) is None);
                            assert((p =~= path) <==> (p.skip(1) =~= subpath)) by {
                                if p.skip(1) =~= subpath {
                                    assert(p =~= seq![p[0]] + p.skip(1));
                                    assert(seq![p[0]] + p.skip(1) =~= seq![key_str@] + subpath);
                                }
                                if p =~= path {
                                    assert(p.skip(1) =~= path.skip(1));
                                }
                            }
                        } else {
                            assert(child_index_from(ch2, p[0], 0) < 0);
                            assert(!(p =~= path));
                        }
                    }
                }
            }
            res
        },
    }
}

fn node_contains(n: &ModuleNode, name: &str) -> (r: bool)
    ensures
        r == node_bound(*n, segments(name@)) is Some,
    decreases name@.len(),
{
    let ln = name.unicode_len();
    match find_char(name, '.') {
        None => {
            let key = name.to_owned();
            proof {
                assert(segments(name@) == seq![name@]);
                assert(segments(name@)[0] == key@);
                assert(segments(name@).skip(1) =~= Seq::<Seq<char>>::empty());
            }
            match find_child(&n.children, &key) {
                Some(i) => {
                    let r = n.children[i].1.module.is_some();
                    proof {
                        assert(segments(name@).skip(1).len() == 0);
                        assert(node_bound(n.children@[i as int].1, segments(name@).skip(1))
                            == n.children@[i as int].1.module);
                        assert(node_bound(*n, segments(name@)) == n.children@[i as int].1.module);
                    }
                    r
                },
                None => {
                    proof {
                        assert(node_bound(*n, segments(name@)) is None);
                    }
                    false
                },
            }
        },
        Some(d) => {
            let key = name.substring_char(0, d).to_owned();
            let rest = name.substring_char(d + 1, ln);
            proof {
                assert(key@ =~= name@.take(d as int));
                assert(rest@ =~= name@.skip(d as int + 1));
                assert(segments(name@) == seq![name@.take(d as int)] + segments(
                    name@.skip(d as int + 1),
                ));
                assert(segments(name@)[0] == key@);
                assert(segments(name@).skip(1) =~= segments(rest@));
            }
            match find_child(&n.children, &key) {
                Some(i) => {
                    let r = node_contains(&n.children[i].1, rest);
                    proof {
                        assert(node_bound(*n, segments(name@)) == node_bound(
                            n.children@[i as int].1,
                            segments(rest@),
                        ));
                    }
                    r
                },
                None => {
                    proof {
                        assert(node_bound(*n, segments(name@)) is None);
                    }
                    false
                },
            }
        },
    }
}

/// Law: inserting modules under two distinct paths leaves both bound,
/// independently of each other.
pub proof fn lemma_registry_independent(
    m0: ModuleManager,
    m1: ModuleManager,
    m2: ModuleManager,
    p1: Seq<Seq<char>>,
    p2: Seq<Seq<char>>,
    a: Module,
    b: Module,
)
    requires
        forall|p: Seq<Seq<char>>| #[trigger] m1.bound(p) == (if p =~= p1 {
            Some(a)
        } else {
            m0.bound(p)
        }),
        forall|p: Seq<Seq<char>>| #[trigger] m2.bound(p) == (if p =~= p2 {
            Some(b)
        } else {
            m1.bound(p)
        }),
        !(p1 =~= p2),
    ensures
        m2.bound(p1) == Some(a),
        m2.bound(p2) == Some(b),
{
    assert(m1.bound(p1) == Some(a));
    assert(m2.bound(p1) == m1.bound(p1));
}

} // verus!
