# oop_mro_macros

The `oop_class!` macro declares classes with multiple inheritance, virtual and
abstract methods, constructors and `super_call!`, and linearizes every class with
the C3 method resolution order.

The decisions behind the macro are a library verified with Verus (`src/`):

- `c3`: the C3 merge and `linearize_all`, with the laws of the order (it starts
  with the class, lists each ancestor once, keeps the declared order of bases and
  extends the order of every base), the law that a merge succeeds exactly when
  the merged orders admit no cycle, and the exact error of the depth-first walk
  for cycles and inconsistent hierarchies.
- `methods`: method resolution along the order (which implementation each class
  dispatches to, what stays abstract, the `#[override]` and signature rules), the
  interface of a class and the target of each virtual-table entry.
- `graph`: queries over the inheritance graph: base paths for upcasts, all
  inheritance paths, virtual-table slots, reachability, and the bases a class
  linearizes over when some of them are virtual.
- `subobjects`: the subobjects of a class under virtual and non-virtual
  inheritance (shared virtual bases, ambiguous ancestors), the chains that
  `as_base_via` accepts and the names it offers, the cast targets of a virtual
  table, the chains to virtual bases, the numbering of subobjects, and the
  candidates of owned downcasts (by specialization of generic classes).
- `validate`, `signature`: the rules on class declarations (with virtual base
  edges), members (fields, methods, associated consts, statics and types),
  constructors (every direct base initialized, virtual bases initialized once),
  method signatures (async and unsafe virtual methods dispatched by their
  receiver, const only on non-virtual methods), concrete classes and
  `super_call!`.
- `types`: types written in generic classes as token lists, the replacement of
  generic parameters by arguments, the arguments an ancestor receives along a
  chain of bases (with the law that they compose along chains), and inherited
  signatures seen from an inheriting class.
- `generics`, `names`, `text`: keys of generic parameters and initializers, the
  names of generated items, and string helpers.

`app/` holds the macro itself: parsing with `syn`, code generation with `quote`,
and the conversion of the library's verdicts into compile errors. It emits the
structs, base casts, virtual tables (async and unsafe methods included),
constructors, metadata, the `as_base_via` impls of every chain that names a
subobject, and the checked `downcast_ref` / `downcast_mut` of every class with a
virtual table, whose match arms come from the verified subobject numbering and
downcast candidates. Its parser reads plain classes: virtual bases, generic
classes and associated items, `into_base_via` and the owned downcasts of boxes
are not parsed or emitted yet.
