use vstd::prelude::*;

use crate::bindings::{bindings_of, Bindings};
use crate::value::{Expression, Value};

verus! {

/// The name under which a frame keeps what it exports.
pub open spec fn exported_key() -> Seq<char> {
    "__EXPORTED"@
}

/// The name under which a frame keeps what it has imported.
pub open spec fn imported_key() -> Seq<char> {
    "__IMPORTED"@
}

/// The bindings that every new frame starts with: an empty export table
/// and an empty import table.
pub open spec fn seeded() -> Map<Seq<char>, Value> {
    Map::empty().insert(exported_key(), Value::Table(Map::empty())).insert(
        imported_key(),
        Value::Table(Map::empty()),
    )
}

/// One scope: its own bindings and the frame it was opened in, if any.
pub struct Frame {
    pub parent: Option<usize>,
    pub local: Bindings,
}

/// All the frames of a running interpreter, addressed by index. A frame's
/// parent always has a smaller index, so the parent links form no cycle.
pub struct Env {
    pub frames: Vec<Frame>,
    /// How many call dispatches have completed; read only by diagnostics.
    pub count: u64,
}

pub open spec fn local_of(fs: Seq<Frame>, i: int) -> Map<Seq<char>, Value> {
    bindings_of(fs[i].local)
}

/// Every parent link points to an earlier frame.
pub open spec fn parents_ok(fs: Seq<Frame>) -> bool {
    forall|i: int|
        0 <= i < fs.len() ==> match #[trigger] fs[i].parent {
            Some(p) => p < i,
            None => true,
        }
}

/// A name looked up in frame `i` and then up its parent links.
pub open spec fn chain_get(fs: Seq<Frame>, i: int, name: Seq<char>) -> Option<Value>
    decreases i,
{
    if !(0 <= i < fs.len()) {
        None
    } else if local_of(fs, i).contains_key(name) {
        Some(local_of(fs, i)[name])
    } else {
        match fs[i].parent {
            Some(p) => if p < i {
                chain_get(fs, p as int, name)
            } else {
                None
            },
            None => None,
        }
    }
}

/// A name looked up in the import tables along the parent links of frame
/// `i`, the nearest first.
pub open spec fn imports_get(fs: Seq<Frame>, i: int, name: Seq<char>) -> Option<Value>
    decreases i,
{
    if !(0 <= i < fs.len()) {
        None
    } else {
        let here = match local_of(fs, i).get(imported_key()) {
            Some(Value::Table(t)) => t.get(name),
            _ => None,
        };
        match here {
            Some(v) => Some(v),
            None => match fs[i].parent {
                Some(p) => if p < i {
                    imports_get(fs, p as int, name)
                } else {
                    None
                },
                None => None,
            },
        }
    }
}

/// Symbol resolution: the frame and its ancestors first, then what they
/// have imported.
pub open spec fn resolve(fs: Seq<Frame>, i: int, name: Seq<char>) -> Option<Value> {
    match chain_get(fs, i, name) {
        Some(v) => Some(v),
        None => imports_get(fs, i, name),
    }
}

/// The outermost frame reached from `i` by parent links.
pub open spec fn root_of(fs: Seq<Frame>, i: int) -> int
    decreases i,
{
    if !(0 <= i < fs.len()) {
        i
    } else {
        match fs[i].parent {
            Some(p) => if p < i {
                root_of(fs, p as int)
            } else {
                i
            },
            None => i,
        }
    }
}

/// Frames `a` and `b` agree but for the bindings of frame `i`.
pub open spec fn same_but(a: Seq<Frame>, b: Seq<Frame>, i: int) -> bool {
    &&& a.len() == b.len()
    &&& forall|j: int| 0 <= j < a.len() ==> #[trigger] b[j].parent == a[j].parent
    &&& forall|j: int| 0 <= j < a.len() && j != i ==> #[trigger] b[j] == a[j]
}

pub proof fn lemma_root_in_range(fs: Seq<Frame>, i: int)
    requires
        parents_ok(fs),
        0 <= i < fs.len(),
    ensures
        0 <= root_of(fs, i) <= i,
        fs[root_of(fs, i)].parent is None,
    decreases i,
{
    match fs[i].parent {
        Some(p) => {
            lemma_root_in_range(fs, p as int);
        },
        None => {},
    }
}

/// `b` differs from `a` only in frame `c` and in the outermost frame above
/// it; the frames and their parent links stay as they were.
pub open spec fn touches_only(a: Seq<Frame>, b: Seq<Frame>, c: int) -> bool {
    &&& a.len() == b.len()
    &&& forall|j: int| 0 <= j < a.len() ==> #[trigger] b[j].parent == a[j].parent
    &&& forall|j: int| 0 <= j < a.len() && j != c && j != root_of(a, c) ==> #[trigger] b[j] == a[j]
}

/// Whether a name is one of the two reserved table names.
pub open spec fn reserved(k: Seq<char>) -> bool {
    k == exported_key() || k == imported_key()
}

/// What evaluating in frame `c` may change: the outermost frame (where
/// `define` writes) and, of frame `c` itself, only its export and import
/// tables. Every other binding of every frame stays as it was.
pub open spec fn confined(a: Seq<Frame>, b: Seq<Frame>, c: int) -> bool {
    &&& touches_only(a, b, c)
    &&& c != root_of(a, c) ==> forall|k: Seq<char>|
        !reserved(k) ==> #[trigger] local_of(b, c).get(k) == local_of(a, c).get(k)
}

pub proof fn lemma_root_same_parents(a: Seq<Frame>, b: Seq<Frame>, i: int)
    requires
        a.len() == b.len(),
        forall|j: int| 0 <= j < a.len() ==> #[trigger] b[j].parent == a[j].parent,
    ensures
        root_of(a, i) == root_of(b, i),
    decreases i,
{
    if 0 <= i < a.len() {
        assert(b[i].parent == a[i].parent);
        match a[i].parent {
            Some(p) => {
                if p < i {
                    lemma_root_same_parents(a, b, p as int);
                }
            },
            None => {},
        }
    }
}

/// Frames added at the end do not change where an earlier frame's parent
/// links lead.
pub proof fn lemma_root_prefix(a: Seq<Frame>, b: Seq<Frame>, i: int)
    requires
        a.len() <= b.len(),
        forall|j: int| 0 <= j < a.len() ==> #[trigger] b[j] == a[j],
        0 <= i < a.len(),
        parents_ok(a),
    ensures
        root_of(a, i) == root_of(b, i),
    decreases i,
{
    match a[i].parent {
        Some(p) => {
            lemma_root_prefix(a, b, p as int);
        },
        None => {},
    }
}

pub broadcast proof fn lemma_confined_chain(a: Seq<Frame>, b: Seq<Frame>, d: Seq<Frame>, c: int)
    requires
        #[trigger] confined(a, b, c),
        #[trigger] confined(b, d, c),
    ensures
        confined(a, d, c),
{
    lemma_confined_trans(a, b, d, c);
}

pub proof fn lemma_touches_trans(a: Seq<Frame>, b: Seq<Frame>, d: Seq<Frame>, c: int)
    requires
        touches_only(a, b, c),
        touches_only(b, d, c),
    ensures
        touches_only(a, d, c),
{
    lemma_root_same_parents(a, b, c);
}

pub proof fn lemma_confined_trans(a: Seq<Frame>, b: Seq<Frame>, d: Seq<Frame>, c: int)
    requires
        confined(a, b, c),
        confined(b, d, c),
    ensures
        confined(a, d, c),
{
    lemma_root_same_parents(a, b, c);
    lemma_touches_trans(a, b, d, c);
    if c != root_of(a, c) {
        assert forall|k: Seq<char>| !reserved(k) implies #[trigger] local_of(d, c).get(k) == local_of(a, c).get(k) by {
            assert(local_of(d, c).get(k) == local_of(b, c).get(k));
        }
    }
}

/// Work done in a child frame of `c`, opened at the end and closed again,
/// is confined as work in `c` is.
pub proof fn lemma_child_confined(a: Seq<Frame>, b: Seq<Frame>, c: int, local: Bindings)
    requires
        parents_ok(a),
        0 <= c < a.len(),
        a.len() < usize::MAX,
        touches_only(a.push(Frame { parent: Some(c as usize), local }), b, a.len() as int),
    ensures
        confined(a, b.subrange(0, a.len() as int), c),
{
    let n = a.len() as int;
    let a2 = a.push(Frame { parent: Some(c as usize), local });
    assert(forall|j: int| 0 <= j < a.len() ==> #[trigger] a2[j] == a[j]);
    lemma_root_prefix(a, a2, c);
    assert(root_of(a2, n) == root_of(a2, c));
    lemma_root_in_range(a, c);
    let b2 = b.subrange(0, n);
    assert forall|j: int| 0 <= j < a.len() && j != root_of(a, c) implies #[trigger] b2[j] == a[j] by {
        assert(b[j] == a2[j]);
    }
    assert forall|j: int| 0 <= j < a.len() implies #[trigger] b2[j].parent == a[j].parent by {
        assert(b[j].parent == a2[j].parent);
    }
}

/// Work done in two fresh frames opened at the end (a root, and a child of
/// it), closed again, leaves every earlier frame as it was.
pub proof fn lemma_fresh_untouched(a: Seq<Frame>, b: Seq<Frame>, l1: Bindings, l2: Bindings)
    requires
        parents_ok(a),
        a.len() < usize::MAX,
        touches_only(
            a.push(Frame { parent: None, local: l1 }).push(
                Frame { parent: Some(a.len() as usize), local: l2 },
            ),
            b,
            a.len() as int + 1,
        ),
    ensures
        b.subrange(0, a.len() as int) == a,
{
    let n = a.len() as int;
    let a3 = a.push(Frame { parent: None, local: l1 }).push(
        Frame { parent: Some(n as usize), local: l2 },
    );
    assert(root_of(a3, n + 1) == root_of(a3, n));
    assert(root_of(a3, n) == n);
    assert forall|j: int| 0 <= j < n implies #[trigger] b[j] == a[j] by {
        assert(b[j] == a3[j]);
    }
    assert(b.subrange(0, n) =~= a);
}

/// Writing in the outermost frame above `c` is confined to `c`.
pub proof fn lemma_global_confined(a: Seq<Frame>, b: Seq<Frame>, c: int)
    requires
        same_but(a, b, root_of(a, c)),
    ensures
        confined(a, b, c),
{
}

/// Changing one of `c`'s reserved tables is confined to `c`.
pub proof fn lemma_reserved_confined(a: Seq<Frame>, b: Seq<Frame>, c: int, k: Seq<char>, v: Value)
    requires
        same_but(a, b, c),
        reserved(k),
        local_of(b, c) == local_of(a, c).insert(k, v),
    ensures
        confined(a, b, c),
{
    assert forall|q: Seq<char>| !reserved(q) implies #[trigger] local_of(b, c).get(q) == local_of(a, c).get(q) by {
        assert(q != k);
    }
}

/// A fresh frame's bindings.
pub fn seeded_bindings() -> (r: Bindings)
    ensures
        bindings_of(r) == seeded(),
{
    let mut b = Bindings::new();
    b.insert("__EXPORTED".to_string(), Expression::Table(Bindings::new()));
    b.insert("__IMPORTED".to_string(), Expression::Table(Bindings::new()));
    b
}

impl Env {
    pub open spec fn wf(&self) -> bool {
        self.frames@.len() > 0 && parents_ok(self.frames@)
    }

    /// An environment of one frame, with no parent and only the two
    /// reserved tables.
    pub fn new() -> (r: Env)
        ensures
            r.wf(),
            r.frames@.len() == 1,
            r.frames@[0].parent is None,
            local_of(r.frames@, 0) == seeded(),
    {
        let mut frames: Vec<Frame> = Vec::new();
        frames.push(Frame { parent: None, local: seeded_bindings() });
        Env { frames, count: 0 }
    }

    /// Opens a new frame with the given parent and bindings; returns its
    /// index, which is the number of frames before.
    pub fn open_frame(&mut self, parent: Option<usize>, local: Bindings) -> (r: usize)
        requires
            old(self).wf(),
            parent is Some ==> parent->0 < old(self).frames@.len(),
            old(self).frames@.len() < usize::MAX,
        ensures
            final(self).wf(),
            r == old(self).frames@.len(),
            final(self).frames@ == old(self).frames@.push(Frame { parent, local }),
    {
        let r = self.frames.len();
        self.frames.push(Frame { parent, local });
        r
    }

    /// Drops the frames from index `len` on.
    pub fn close_frames(&mut self, len: usize)
        requires
            old(self).wf(),
            0 < len <= old(self).frames@.len(),
        ensures
            final(self).wf(),
            final(self).frames@ == old(self).frames@.subrange(0, len as int),
    {
        self.frames.truncate(len);
    }

    /// Resolves `symbol` from frame `frame`: its own bindings, those of its
    /// ancestors, then the import tables along the same chain.
    pub fn get(&self, frame: usize, symbol: &str) -> (r: Option<Expression>)
        requires
            self.wf(),
            frame < self.frames@.len(),
        ensures
            r is Some <==> resolve(self.frames@, frame as int, symbol@) is Some,
            r is Some ==> r->0.model() == resolve(self.frames@, frame as int, symbol@)->0,
    {
        let fs = Ghost(self.frames@);
        let mut i = frame;
        loop
            invariant
                self.wf(),
                fs@ == self.frames@,
                i < fs@.len(),
                chain_get(fs@, frame as int, symbol@) == chain_get(fs@, i as int, symbol@),
            ensures
                chain_get(fs@, frame as int, symbol@) is None,
            decreases i,
        {
            if let Some(v) = self.frames[i].local.get(symbol) {
                return Some(v);
            }
            match self.frames[i].parent {
                Some(p) => {
                    i = p;
                },
                None => {
                    break;
                },
            }
        }
        let mut i = frame;
        loop
            invariant
                self.wf(),
                fs@ == self.frames@,
                i < fs@.len(),
                imports_get(fs@, frame as int, symbol@) == imports_get(fs@, i as int, symbol@),
                chain_get(fs@, frame as int, symbol@) is None,
            decreases i,
        {
            let imported = self.frames[i].local.get("__IMPORTED");
            if let Some(Expression::Table(t)) = imported {
                let found = t.get(symbol);
                if let Some(v) = found {
                    return Some(v);
                }
                assert(bindings_of(t).get(symbol@) is None);
            } else {
                assert(!(local_of(fs@, i as int).get(imported_key()) matches Some(Value::Table(_))));
            }
            match self.frames[i].parent {
                Some(p) => {
                    i = p;
                },
                None => {
                    return None;
                },
            }
        }
    }

    /// Binds `symbol` in frame `frame` itself.
    pub fn set_local(&mut self, frame: usize, symbol: String, value: Expression)
        requires
            old(self).wf(),
            frame < old(self).frames@.len(),
        ensures
            final(self).wf(),
            same_but(old(self).frames@, final(self).frames@, frame as int),
            local_of(final(self).frames@, frame as int) == local_of(
                old(self).frames@,
                frame as int,
            ).insert(symbol@, value.model()),
    {
        self.frames[frame].local.insert(symbol, value);
    }

    /// Binds `symbol` in the parent of frame `frame`, or in the frame itself
    /// where it has no parent.
    pub fn set_parent(&mut self, frame: usize, symbol: String, value: Expression)
        requires
            old(self).wf(),
            frame < old(self).frames@.len(),
        ensures
            final(self).wf(),
            ({
                let t = match old(self).frames@[frame as int].parent {
                    Some(p) => p as int,
                    None => frame as int,
                };
                &&& same_but(old(self).frames@, final(self).frames@, t)
                &&& local_of(final(self).frames@, t) == local_of(old(self).frames@, t).insert(
                    symbol@,
                    value.model(),
                )
            }),
    {
        let target = match self.frames[frame].parent {
            Some(p) => p,
            None => frame,
        };
        self.set_local(target, symbol, value);
    }

    /// Binds `symbol` in the outermost frame reached from `frame`.
    pub fn set_global(&mut self, frame: usize, symbol: String, value: Expression)
        requires
            old(self).wf(),
            frame < old(self).frames@.len(),
        ensures
            final(self).wf(),
            same_but(old(self).frames@, final(self).frames@, root_of(old(self).frames@, frame as int)),
            local_of(final(self).frames@, root_of(old(self).frames@, frame as int)) == local_of(
                old(self).frames@,
                root_of(old(self).frames@, frame as int),
            ).insert(symbol@, value.model()),
    {
        let mut i = frame;
        while self.frames[i].parent.is_some()
            invariant
                self.wf(),
                i < self.frames@.len(),
                root_of(self.frames@, frame as int) == root_of(self.frames@, i as int),
            decreases i,
        {
            i = self.frames[i].parent.unwrap();
        }
        self.set_local(i, symbol, value);
    }

    /// Adds every binding of `other` to frame `frame`, those of `other`
    /// winning.
    pub fn extend(&mut self, frame: usize, other: Bindings)
        requires
            old(self).wf(),
            frame < old(self).frames@.len(),
        ensures
            final(self).wf(),
            same_but(old(self).frames@, final(self).frames@, frame as int),
            local_of(final(self).frames@, frame as int) == local_of(
                old(self).frames@,
                frame as int,
            ).union_prefer_right(bindings_of(other)),
    {
        self.frames[frame].local.extend(other);
    }
}

} // verus!
