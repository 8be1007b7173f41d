use crate::ids::Wrapper;
use crate::text::{decimal, push_char, push_decimal, split_on, split_pieces};
use crate::unique_id::UniqueId;
use std::collections::BTreeMap;
use vstd::prelude::*;

verus! {

broadcast use vstd::std_specs::btree::group_btree_axioms;

/// Line `i` (counted from zero) with its number, counted from one, in front: `12|text`.
pub open spec fn numbered_line(i: nat, line: Seq<char>) -> Seq<char> {
    decimal(i + 1) + seq!['|'] + line
}

/// The first `n` lines of `lines`, each numbered, joined by line breaks.
pub open spec fn numbered_lines(lines: Seq<Seq<char>>, n: nat) -> Seq<char>
    decreases n,
{
    if n == 0 {
        Seq::<char>::empty()
    } else if n == 1 {
        numbered_line(0, lines[0])
    } else {
        numbered_lines(lines, (n - 1) as nat) + seq!['\n'] + numbered_line((n - 1) as nat, lines[n - 1])
    }
}

/// Puts the number of each line, counted from one, and `|` in front of it.
pub fn add_line_numbers(s: &str) -> (result: String)
    ensures
        result@ == numbered_lines(split_pieces(s@, seq!['\n']), split_pieces(s@, seq!['\n']).len()),
{
    let newline = vec!['\n'];
    assert(newline@ =~= seq!['\n']);
    let lines = split_on(s, &newline);
    let ghost lv = split_pieces(s@, seq!['\n']);
    let mut result = String::new();
    let mut i: usize = 0;
    while i < lines.len()
        invariant
            lines@.len() == lv.len(),
            forall|k: int| 0 <= k < lines@.len() ==> (#[trigger] lines@[k])@ == lv[k],
            i <= lv.len(),
            result@ == numbered_lines(lv, i as nat),
        decreases lv.len() - i,
    {
        if i > 0 {
            push_char(&mut result, '\n');
        }
        push_decimal(&mut result, i + 1);
        push_char(&mut result, '|');
        result.append(lines[i]);
        proof {
            if i == 0 {
                assert(result@ =~= numbered_line(0, lv[0]));
            } else {
                assert(result@ =~= numbered_lines(lv, i as nat) + seq!['\n'] + numbered_line(i as nat, lv[i as int]));
            }
        }
        i = i + 1;
    }
    result
}

/// What an edit changed: values passed to the shader, or the shader code itself.
#[derive(Debug, Clone, Copy, Default, PartialEq, Eq, Structural)]
pub struct WhatChanged {
    pub uniform: bool,
    pub shader: bool,
}

impl WhatChanged {
    /// Only values may have changed.
    pub fn from_uniform(uniform: bool) -> (result: Self)
        ensures
            result == (WhatChanged { uniform, shader: false }),
    {
        Self { uniform, shader: false }
    }

    /// Only the code may have changed.
    pub fn from_shader(shader: bool) -> (result: Self)
        ensures
            result == (WhatChanged { uniform: false, shader }),
    {
        Self { uniform: false, shader }
    }
}

impl std::ops::BitOrAssign for WhatChanged {
    /// Something changed if it changed in either.
    fn bitor_assign(&mut self, rhs: Self)
        ensures
            final(self).uniform == (old(self).uniform || rhs.uniform),
            final(self).shader == (old(self).shader || rhs.shader),
    {
        self.uniform = self.uniform || rhs.uniform;
        self.shader = self.shader || rhs.shader;
    }
}

/// A compiler message: a line number and its text.
pub open spec fn message_view(p: (usize, String)) -> (usize, Seq<char>) {
    (p.0, p.1@)
}

/// Compiler messages about pieces of user code, filed by the kind of element the code belongs
/// to and by the element's identifier.
#[derive(Debug)]
pub struct ShaderErrors(BTreeMap<u8, BTreeMap<usize, Vec<(usize, String)>>>);

impl ShaderErrors {
    /// The messages filed under each kind and raw identifier, in the order they came.
    pub closed spec fn messages(&self) -> Map<(u8, usize), Seq<(usize, Seq<char>)>> {
        Map::new(
            |key: (u8, usize)| self.0@.contains_key(key.0) && self.0@[key.0]@.contains_key(key.1),
            |key: (u8, usize)| self.0@[key.0]@[key.1]@.map_values(|p: (usize, String)| message_view(p)),
        )
    }

    /// The messages filed under the element `id`, if any.
    pub fn get<T: Wrapper>(&self, id: T) -> (result: Option<&[(usize, String)]>)
        ensures
            match result {
                Some(v) => self.messages().contains_key((T::id_kind(), id.id_of().0))
                    && v@.map_values(|p: (usize, String)| message_view(p)) == self.messages()[(T::id_kind(), id.id_of().0)],
                None => !self.messages().contains_key((T::id_kind(), id.id_of().0)),
            },
    {
        let kind = T::kind();
        let raw = id.un_wrap().0;
        match self.0.get(&kind) {
            Some(inner) => match inner.get(&raw) {
                Some(v) => Some(v.as_slice()),
                None => None,
            },
            None => None,
        }
    }

    /// Files `value` last among the messages of the element whose kind and identifier are
    /// `key`.
    pub fn push(&mut self, key: (u8, UniqueId), value: (usize, String))
        ensures
            final(self).messages() == old(self).messages().insert(
                (key.0, key.1.0),
                (if old(self).messages().contains_key((key.0, key.1.0)) {
                    old(self).messages()[(key.0, key.1.0)]
                } else {
                    Seq::empty()
                }).push(message_view(value)),
            ),
    {
        let (kind, uniq_id) = key;
        let raw = uniq_id.0;
        let ghost before = self.0@;
        let mut inner = match self.0.remove(&kind) {
            Some(m) => m,
            None => BTreeMap::new(),
        };
        let ghost inner0 = inner@;
        let mut list = match inner.remove(&raw) {
            Some(v) => v,
            None => Vec::new(),
        };
        let ghost list0 = list@;
        list.push(value);
        inner.insert(raw, list);
        self.0.insert(kind, inner);
        proof {
            let target = old(self).messages().insert(
                (kind, raw),
                (if old(self).messages().contains_key((kind, raw)) {
                    old(self).messages()[(kind, raw)]
                } else {
                    Seq::empty()
                }).push(message_view(value)),
            );
            assert(list0.push(value).map_values(|p: (usize, String)| message_view(p)) =~= list0.map_values(
                |p: (usize, String)| message_view(p),
            ).push(message_view(value)));
            assert forall|q: (u8, usize)| #[trigger] self.messages().contains_key(q) <==> target.contains_key(q) by {
                if q.0 != kind {
                    assert(self.0@[q.0] == before[q.0]);
                } else if q.1 != raw {
                    assert(self.0@[q.0]@.contains_key(q.1) == inner0.contains_key(q.1));
                }
            }
            assert forall|q: (u8, usize)| #[trigger] self.messages().contains_key(q) implies self.messages()[q] == target[q] by {
                if q.0 != kind {
                    assert(self.0@[q.0] == before[q.0]);
                } else if q.1 != raw {
                    assert(self.0@[q.0]@[q.1] == inner0[q.1]);
                } else {
                    assert(self.0@[q.0]@[q.1]@ == list0.push(value));
                }
            }
            assert(self.messages() =~= target);
        }
    }

    /// Files `value` last among the messages of the element `id`.
    pub fn push_t<T: Wrapper>(&mut self, id: T, value: (usize, String))
        ensures
            final(self).messages() == old(self).messages().insert(
                (T::id_kind(), id.id_of().0),
                (if old(self).messages().contains_key((T::id_kind(), id.id_of().0)) {
                    old(self).messages()[(T::id_kind(), id.id_of().0)]
                } else {
                    Seq::empty()
                }).push(message_view(value)),
            ),
    {
        self.push((T::kind(), id.un_wrap()), value);
    }
}

impl Default for ShaderErrors {
    /// No messages.
    fn default() -> (result: Self)
        ensures
            result.messages() == Map::<(u8, usize), Seq<(usize, Seq<char>)>>::empty(),
    {
        let result = ShaderErrors(BTreeMap::new());
        assert(result.messages() =~= Map::<(u8, usize), Seq<(usize, Seq<char>)>>::empty());
        result
    }
}

} // verus!
