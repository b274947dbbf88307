//! Lexically scoped environments. Frames live in an append-only arena owned
//! by the environment; a frame refers to its parent by index, and a closure
//! captures the index of its defining frame. A frame's table is append-only
//! too: a later binding of a name shadows an earlier one.

use vstd::prelude::*;

use crate::error::{AppError, AppResult};
use crate::interpreter::builtins::builtins_table;
use crate::interpreter::model::{value_view, Value, ValueView};

verus! {

pub struct Frame {
    pub table: Vec<(String, Value)>,
    pub parent: Option<usize>,
}

/// The mathematical shape of a frame: the bindings as a map, the parent as
/// an index.
pub struct FrameView {
    pub table: Map<Seq<char>, ValueView>,
    pub parent: Option<int>,
}

/// The bindings of a table, later entries shadowing earlier ones.
pub open spec fn table_view(entries: Seq<(String, Value)>) -> Map<Seq<char>, ValueView>
    decreases entries.len(),
{
    if entries.len() == 0 {
        Map::empty()
    } else {
        table_view(entries.drop_last()).insert(
            entries.last().0@,
            value_view(entries.last().1),
        )
    }
}

pub open spec fn frame_view(f: Frame) -> FrameView {
    FrameView {
        table: table_view(f.table@),
        parent: match f.parent {
            Option::Some(p) => Option::Some(p as int),
            Option::None => Option::None,
        },
    }
}

pub open spec fn frames_view(fs: Seq<Frame>) -> Seq<FrameView>
    decreases fs.len(),
{
    if fs.len() == 0 {
        Seq::empty()
    } else {
        frames_view(fs.drop_last()).push(frame_view(fs.last()))
    }
}

pub proof fn lemma_frames_view(fs: Seq<Frame>)
    ensures
        frames_view(fs).len() == fs.len(),
        forall|i: int| 0 <= i < fs.len() ==> #[trigger] frames_view(fs)[i] == frame_view(fs[i]),
    decreases fs.len(),
{
    if fs.len() > 0 {
        lemma_frames_view(fs.drop_last());
        assert forall|i: int|
            0 <= i < fs.len() implies #[trigger] frames_view(fs)[i] == frame_view(fs[i]) by {
            if i < fs.len() - 1 {
                assert(fs.drop_last()[i] == fs[i]);
            }
        }
    }
}

/// Every frame's parent comes earlier in the arena.
pub open spec fn frames_wf(fs: Seq<FrameView>) -> bool {
    forall|i: int|
        0 <= i < fs.len() ==> ((#[trigger] fs[i]).parent matches Some(p) ==> 0 <= p < i)
}

/// The value a name resolves to from frame `cur`: the nearest binding along
/// the parent chain.
pub open spec fn lookup_view(fs: Seq<FrameView>, cur: int, name: Seq<char>) -> Option<ValueView>
    decreases cur + 1,
{
    if !(0 <= cur < fs.len()) {
        Option::None
    } else if fs[cur].table.contains_key(name) {
        Option::Some(fs[cur].table[name])
    } else {
        match fs[cur].parent {
            Option::None => Option::None,
            Option::Some(p) => {
                if 0 <= p < cur {
                    lookup_view(fs, p, name)
                } else {
                    Option::None
                }
            },
        }
    }
}

/// An environment: the arena of frames plus the index of the current frame.
pub struct Env {
    pub frames: Vec<Frame>,
    pub cur: usize,
}

impl Env {
    pub open spec fn frames_v(self) -> Seq<FrameView> {
        frames_view(self.frames@)
    }

    pub open spec fn cur_v(self) -> int {
        self.cur as int
    }

    pub open spec fn wf(self) -> bool {
        &&& frames_wf(self.frames_v())
        &&& 0 <= self.cur_v() < self.frames_v().len()
        &&& self.frames@.len() == self.frames_v().len()
    }

    /// A fresh empty frame whose parent is a builtins frame holding every
    /// builtin function and `nil`.
    pub fn with_builtins() -> (r: Env)
        ensures
            r.wf(),
            r.frames_v().len() == 2,
            r.cur_v() == 1,
            r.frames_v()[0].table == builtins_table_view(),
            r.frames_v()[0].parent is None,
            r.frames_v()[1].table == Map::<Seq<char>, ValueView>::empty(),
            r.frames_v()[1].parent == Some(0int),
    {
        let builtins = Frame { table: builtins_table(), parent: None };
        let top = Frame { table: Vec::new(), parent: Some(0) };
        let mut frames: Vec<Frame> = Vec::new();
        frames.push(builtins);
        frames.push(top);
        let r = Env { frames, cur: 1 };
        proof {
            lemma_frames_view(r.frames@);
            assert(table_view(Seq::<(String, Value)>::empty()) =~= Map::<
                Seq<char>,
                ValueView,
            >::empty());
        }
        r
    }

    /// Binds a name in the frame `id`, shadowing any earlier binding.
    pub(crate) fn define_in(&mut self, id: usize, name: String, value: Value)
        requires
            old(self).wf(),
            0 <= id < old(self).frames_v().len(),
        ensures
            final(self).wf(),
            final(self).cur_v() == old(self).cur_v(),
            final(self).frames_v() == old(self).frames_v().update(
                id as int,
                FrameView {
                    table: old(self).frames_v()[id as int].table.insert(
                        name@,
                        value_view(value),
                    ),
                    parent: old(self).frames_v()[id as int].parent,
                },
            ),
    {
        proof {
            lemma_frames_view(self.frames@);
        }
        let fr = &mut self.frames[id];
        fr.table.push((name, value));
        proof {
            lemma_frames_view(self.frames@);
            assert(self.frames@[id as int].table@ == old(self).frames@[id as int].table@.push(
                (name, value),
            ));
            assert(self.frames@[id as int].table@.drop_last() =~= old(
                self,
            ).frames@[id as int].table@);
            assert(frame_view(self.frames@[id as int]) == FrameView {
                table: old(self).frames_v()[id as int].table.insert(name@, value_view(value)),
                parent: old(self).frames_v()[id as int].parent,
            });
            assert forall|i: int| 0 <= i < self.frames@.len() && i != id implies self.frames@[i]
                == old(self).frames@[i] by {}
            assert(final(self).frames_v() =~= old(self).frames_v().update(
                id as int,
                frame_view(self.frames@[id as int]),
            ));
        }
    }

    /// Appends a fresh frame and returns its index.
    pub(crate) fn push_frame(&mut self, f: Frame) -> (id: usize)
        requires
            old(self).wf(),
            f.parent matches Some(p) ==> 0 <= p < old(self).frames_v().len(),
        ensures
            final(self).wf(),
            final(self).cur_v() == old(self).cur_v(),
            id as int == old(self).frames_v().len(),
            final(self).frames_v() == old(self).frames_v().push(frame_view(f)),
    {
        proof {
            lemma_frames_view(self.frames@);
        }
        let id = self.frames.len();
        let ghost fv = frame_view(f);
        self.frames.push(f);
        proof {
            lemma_frames_view(self.frames@);
            assert(final(self).frames_v() =~= old(self).frames_v().push(fv));
        }
        id
    }

    /// Looks a name up from frame `id` along the parent chain.
    pub(crate) fn lookup_from(&self, id: usize, name: &str) -> (r: AppResult<Value>)
        requires
            self.wf(),
            0 <= id < self.frames_v().len(),
        ensures
            match lookup_view(self.frames_v(), id as int, name@) {
                Option::Some(v) => r matches Ok(val) && value_view(val) == v,
                Option::None => r is Err,
            },
        decreases id,
    {
        proof {
            lemma_frames_view(self.frames@);
        }
        let fr = &self.frames[id];
        let owned = String::from_str(name);
        match table_get(&fr.table, &owned) {
            Some(v) => Ok(v.duplicate()),
            None => {
                match fr.parent {
                    Some(p) => {
                        proof {
                            assert(self.frames_v()[id as int].parent == Some(p as int));
                            assert(0 <= p < id);
                        }
                        self.lookup_from(p, name)
                    },
                    None => {
                        let mut m = String::from_str("Variable is not defined: ");
                        m.append(name);
                        Err(AppError::from_string(m))
                    },
                }
            },
        }
    }

    /// Looks a name up from the current frame.
    pub fn lookup(&self, name: &str) -> (r: AppResult<Value>)
        requires
            self.wf(),
        ensures
            match lookup_view(self.frames_v(), self.cur_v(), name@) {
                Option::Some(v) => r matches Ok(val) && value_view(val) == v,
                Option::None => r is Err,
            },
    {
        self.lookup_from(self.cur, name)
    }
}

/// Scans a binding table from the latest entry backwards.
fn table_get<'a>(entries: &'a Vec<(String, Value)>, name: &String) -> (r: Option<&'a Value>)
    ensures
        match r {
            Option::Some(v) => table_view(entries@).contains_key(name@) && value_view(*v)
                == table_view(entries@)[name@],
            Option::None => !table_view(entries@).contains_key(name@),
        },
{
    let n = entries.len();
    let mut k: usize = n;
    while k > 0
        invariant
            k <= n,
            n == entries@.len(),
            forall|m: int| k <= m < n ==> (#[trigger] entries@[m]).0@ != name@,
        decreases k,
    {
        k = k - 1;
        let hit = {
            let e = &entries[k];
            e.0.eq(name)
        };
        if hit {
            proof {
                lemma_table_view_found(entries@, k as int, name@);
            }
            return Some(&entries[k].1);
        }
    }
    proof {
        lemma_table_view_missing(entries@, name@);
    }
    None
}

/// If entry `k` binds `name` and no later entry does, the table maps `name`
/// to entry `k`'s value.
proof fn lemma_table_view_found(entries: Seq<(String, Value)>, k: int, name: Seq<char>)
    requires
        0 <= k < entries.len(),
        entries[k].0@ == name,
        forall|m: int| k < m < entries.len() ==> (#[trigger] entries[m]).0@ != name,
    ensures
        table_view(entries).contains_key(name),
        table_view(entries)[name] == value_view(entries[k].1),
    decreases entries.len(),
{
    if k == entries.len() - 1 {
    } else {
        assert(entries.drop_last()[k] == entries[k]);
        assert forall|m: int|
            k < m < entries.drop_last().len() implies (#[trigger] entries.drop_last()[m]).0@
            != name by {
            assert(entries.drop_last()[m] == entries[m]);
        }
        lemma_table_view_found(entries.drop_last(), k, name);
        assert(entries.last().0@ != name);
    }
}

/// If no entry binds `name`, the table has no key `name`.
proof fn lemma_table_view_missing(entries: Seq<(String, Value)>, name: Seq<char>)
    requires
        forall|m: int| 0 <= m < entries.len() ==> (#[trigger] entries[m]).0@ != name,
    ensures
        !table_view(entries).contains_key(name),
    decreases entries.len(),
{
    if entries.len() > 0 {
        assert forall|m: int|
            0 <= m < entries.drop_last().len() implies (#[trigger] entries.drop_last()[m]).0@
            != name by {
            assert(entries.drop_last()[m] == entries[m]);
        }
        lemma_table_view_missing(entries.drop_last(), name);
    }
}

/// The bindings of the builtins frame.
pub open spec fn builtins_table_view() -> Map<Seq<char>, ValueView> {
    Map::empty().insert("+"@, ValueView::Builtin(crate::interpreter::model::Builtin::Plus)).insert(
        "*"@,
        ValueView::Builtin(crate::interpreter::model::Builtin::Mult),
    ).insert("show"@, ValueView::Builtin(crate::interpreter::model::Builtin::Show)).insert(
        "type"@,
        ValueView::Builtin(crate::interpreter::model::Builtin::Type),
    ).insert("cons"@, ValueView::Builtin(crate::interpreter::model::Builtin::Cons)).insert(
        "car"@,
        ValueView::Builtin(crate::interpreter::model::Builtin::Car),
    ).insert("cdr"@, ValueView::Builtin(crate::interpreter::model::Builtin::Cdr)).insert(
        "nil?"@,
        ValueView::Builtin(crate::interpreter::model::Builtin::NilQ),
    ).insert("nil"@, ValueView::Nil)
}

} // verus!
