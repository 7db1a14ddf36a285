use vstd::prelude::*;

use crate::graph::VtableSlot;
use crate::text::push_char;

verus! {

pub open spec fn is_ascii_upper(c: char) -> bool {
    'A' <= c && c <= 'Z'
}

/// The lower-case letter for an upper-case ASCII letter.
pub open spec fn ascii_lower(c: char) -> char {
    ((c as u32) + 32) as char
}

/// One step of the conversion: `c`, the character at `index`, appended to `out`.
/// An upper-case letter becomes lower case, preceded by `_` unless it is the first
/// character or `out` already ends with `_`.
pub open spec fn snake_step(out: Seq<char>, c: char, index: int) -> Seq<char> {
    if is_ascii_upper(c) {
        let sep = if index > 0 && !(out.len() > 0 && out[out.len() - 1] == '_') {
            out.push('_')
        } else {
            out
        };
        sep.push(ascii_lower(c))
    } else {
        out.push(c)
    }
}

/// The snake-case form of an identifier.
pub open spec fn snake_case(s: Seq<char>) -> Seq<char>
    decreases s.len(),
{
    if s.len() == 0 {
        Seq::empty()
    } else {
        snake_step(snake_case(s.drop_last()), s.last(), s.len() - 1)
    }
}

proof fn lemma_lower_not_upper(c: char)
    requires
        is_ascii_upper(c),
    ensures
        !is_ascii_upper(ascii_lower(c)),
{
    assert('a' <= ascii_lower(c) && ascii_lower(c) <= 'z');
}

/// Snake case holds no upper-case ASCII letter.
pub proof fn lemma_snake_case_no_upper(s: Seq<char>)
    ensures
        forall|i: int| 0 <= i < snake_case(s).len() ==> !is_ascii_upper(#[trigger] snake_case(s)[i]),
    decreases s.len(),
{
    if s.len() > 0 {
        let prev = snake_case(s.drop_last());
        lemma_snake_case_no_upper(s.drop_last());
        let c = s.last();
        let out = snake_case(s);
        if is_ascii_upper(c) {
            lemma_lower_not_upper(c);
            let sep = if s.len() - 1 > 0 && !(prev.len() > 0 && prev[prev.len() - 1] == '_') {
                prev.push('_')
            } else {
                prev
            };
            assert(out == sep.push(ascii_lower(c)));
            assert forall|i: int| 0 <= i < out.len() implies !is_ascii_upper(#[trigger] out[i]) by {
                if i < prev.len() {
                    assert(out[i] == prev[i]);
                }
            }
        } else {
            assert(out == prev.push(c));
            assert forall|i: int| 0 <= i < out.len() implies !is_ascii_upper(#[trigger] out[i]) by {
                if i < prev.len() {
                    assert(out[i] == prev[i]);
                }
            }
        }
    }
}

/// A name without upper-case ASCII letters is its own snake case.
pub proof fn lemma_snake_case_of_lower(s: Seq<char>)
    requires
        forall|i: int| 0 <= i < s.len() ==> !is_ascii_upper(#[trigger] s[i]),
    ensures
        snake_case(s) == s,
    decreases s.len(),
{
    if s.len() > 0 {
        let rest = s.drop_last();
        assert forall|i: int| 0 <= i < rest.len() implies !is_ascii_upper(#[trigger] rest[i]) by {
            assert(rest[i] == s[i]);
        }
        lemma_snake_case_of_lower(rest);
        assert(!is_ascii_upper(s[s.len() - 1]));
        assert(rest.push(s.last()) =~= s);
    }
}

/// Snake case is idempotent: converting a converted name changes nothing.
pub proof fn lemma_snake_case_idempotent(s: Seq<char>)
    ensures
        snake_case(snake_case(s)) == snake_case(s),
{
    lemma_snake_case_no_upper(s);
    lemma_snake_case_of_lower(snake_case(s));
}

/// Converts a class or field name to snake case: `VTableSlot` becomes
/// `v_table_slot`.
pub fn to_snake(name: &str) -> (res: String)
    ensures
        res@ == snake_case(name@),
{
    let mut output = String::new();
    let len = name.unicode_len();
    let mut ends_with_underscore = false;
    let mut index: usize = 0;
    proof {
        assert(name@.take(0) =~= Seq::<char>::empty());
    }
    while index < len
        invariant
            len == name@.len(),
            index <= len,
            output@ == snake_case(name@.take(index as int)),
            ends_with_underscore == (output@.len() > 0 && output@[output@.len() - 1] == '_'),
        decreases len - index,
    {
        let ch = name.get_char(index);
        let ghost before = output@;
        if 'A' <= ch && ch <= 'Z' {
            if index > 0 && !ends_with_underscore {
                push_char(&mut output, '_');
            }
            let lower = ((ch as u8) + 32u8) as char;
            assert(lower == ascii_lower(ch)) by {
                assert((ch as u8) as u32 == ch as u32);
            }
            push_char(&mut output, lower);
            ends_with_underscore = false;
        } else {
            push_char(&mut output, ch);
            ends_with_underscore = ch == '_';
        }
        proof {
            assert(name@.take(index + 1).drop_last() =~= name@.take(index as int));
            assert(name@.take(index + 1).last() == ch);
        }
        index = index + 1;
    }
    proof {
        assert(name@.take(len as int) =~= name@);
    }
    output
}

/// The names along `path`, joined by `_`.
pub open spec fn joined_names(names: Seq<Seq<char>>, path: Seq<usize>) -> Seq<char>
    decreases path.len(),
{
    if path.len() <= 1 {
        if path.len() == 0 {
            Seq::empty()
        } else {
            names[path[0] as int]
        }
    } else {
        joined_names(names, path.drop_last()) + seq!['_'] + names[path.last() as int]
    }
}

pub open spec fn names_view(names: Seq<String>) -> Seq<Seq<char>> {
    names.map_values(|s: String| s@)
}

/// The name of a virtual-table slot: the ancestor's name when the slot is the class
/// itself, else the names along the path joined by `_`.
pub open spec fn slot_name(names: Seq<Seq<char>>, ancestor: usize, path: Seq<usize>) -> Seq<char> {
    if path.len() == 0 {
        names[ancestor as int]
    } else {
        joined_names(names, path)
    }
}

/// The name of a virtual-table slot (see `slot_name`).
pub fn vtable_slot_name(names: &[String], slot: &VtableSlot) -> (res: String)
    requires
        slot.ancestor < names@.len(),
        forall|k: int| 0 <= k < slot.path@.len() ==> #[trigger] slot.path@[k] < names@.len(),
    ensures
        res@ == slot_name(names_view(names@), slot.ancestor, slot.path@),
{
    let ghost nv = names_view(names@);
    if slot.path.len() == 0 {
        let res = names[slot.ancestor].clone();
        assert(nv[slot.ancestor as int] == names@[slot.ancestor as int]@);
        return res;
    }
    let mut res = names[slot.path[0]].clone();
    assert(nv[slot.path@[0] as int] == names@[slot.path@[0] as int]@);
    assert(slot.path@.take(1).drop_last() =~= Seq::<usize>::empty());
    let mut k: usize = 1;
    while k < slot.path.len()
        invariant
            nv == names_view(names@),
            1 <= k <= slot.path@.len(),
            forall|j: int| 0 <= j < slot.path@.len() ==> #[trigger] slot.path@[j] < names@.len(),
            res@ == joined_names(nv, slot.path@.take(k as int)),
        decreases slot.path@.len() - k,
    {
        let index = slot.path[k];
        res.append("_");
        res.append(names[index].as_str());
        proof {
            reveal_strlit("_");
            assert(nv[index as int] == names@[index as int]@);
            assert(slot.path@.take(k + 1).drop_last() =~= slot.path@.take(k as int));
            assert(slot.path@.take(k + 1).last() == index);
        }
        k = k + 1;
    }
    assert(slot.path@.take(slot.path@.len() as int) =~= slot.path@);
    res
}

/// The field that holds the base-class subobject of the class named `name`.
pub fn base_field_name(name: &str) -> (res: String)
    ensures
        res@ == "__oop_base_"@ + snake_case(name@),
{
    let snake = to_snake(name);
    let mut res = String::from_str("__oop_base_");
    res.append(snake.as_str());
    res
}

/// The method of the base-cast trait of the class named `name`: `as_<snake>` or
/// `as_<snake>_mut`.
pub fn base_cast_method_name(name: &str, mutable: bool) -> (res: String)
    ensures
        res@ == if mutable {
            "as_"@ + snake_case(name@) + "_mut"@
        } else {
            "as_"@ + snake_case(name@)
        },
{
    let snake = to_snake(name);
    let mut res = String::from_str("as_");
    res.append(snake.as_str());
    if mutable {
        res.append("_mut");
    }
    res
}

/// The static that holds the virtual table of class `class_index` seen as `slot`.
pub fn vtable_static_name(names: &[String], class_index: usize, slot: &VtableSlot) -> (res: String)
    requires
        class_index < names@.len(),
        slot.ancestor < names@.len(),
        forall|k: int| 0 <= k < slot.path@.len() ==> #[trigger] slot.path@[k] < names@.len(),
    ensures
        res@ == "__OOP_VTABLE_"@ + names@[class_index as int]@ + "_AS_"@ + slot_name(
            names_view(names@),
            slot.ancestor,
            slot.path@,
        ),
{
    let slot_name = vtable_slot_name(names, slot);
    let mut res = String::from_str("__OOP_VTABLE_");
    res.append(names[class_index].as_str());
    res.append("_AS_");
    res.append(slot_name.as_str());
    res
}

/// The function that dispatches `method` of class `class_index` seen as `slot`.
pub fn vtable_function_name(names: &[String], class_index: usize, slot: &VtableSlot, method: &str) -> (res:
    String)
    requires
        class_index < names@.len(),
        slot.ancestor < names@.len(),
        forall|k: int| 0 <= k < slot.path@.len() ==> #[trigger] slot.path@[k] < names@.len(),
    ensures
        res@ == "__oop_vcall_"@ + snake_case(names@[class_index as int]@) + "_as_"@ + snake_case(
            slot_name(names_view(names@), slot.ancestor, slot.path@),
        ) + "_"@ + method@,
{
    let class_name = to_snake(names[class_index].as_str());
    let slot_name = vtable_slot_name(names, slot);
    let slot_snake = to_snake(slot_name.as_str());
    let mut res = String::from_str("__oop_vcall_");
    res.append(class_name.as_str());
    res.append("_as_");
    res.append(slot_snake.as_str());
    res.append("_");
    res.append(method);
    res
}

} // verus!
