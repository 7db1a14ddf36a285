use oop_mro_macros::types::{chain_arguments, substitute, types_in_context, TypeToken};

use TypeToken::{Atom, Param};

const VEC: usize = 10;
const OPEN: usize = 11;
const CLOSE: usize = 12;
const U8: usize = 13;

#[test]
fn parameters_are_replaced_by_their_arguments() {
    let ty = vec![Atom(VEC), Atom(OPEN), Param(0), Atom(CLOSE)];
    let subs = vec![vec![Atom(U8)]];
    assert_eq!(substitute(&ty, &subs), vec![Atom(VEC), Atom(OPEN), Atom(U8), Atom(CLOSE)]);
}

#[test]
fn parameters_without_arguments_stay() {
    let ty = vec![Param(1), Atom(U8), Param(0)];
    let subs = vec![vec![Atom(VEC), Atom(OPEN), Atom(U8), Atom(CLOSE)]];
    assert_eq!(
        substitute(&ty, &subs),
        vec![Param(1), Atom(U8), Atom(VEC), Atom(OPEN), Atom(U8), Atom(CLOSE)]
    );
    assert_eq!(substitute(&ty, &Vec::new()), ty);
}

// class Root<T>; class Mid<U>: Root<Vec<U>>; class Leaf: Mid<u8>
fn generic_chain() -> (Vec<Vec<usize>>, Vec<Vec<Vec<Vec<TypeToken>>>>, Vec<usize>) {
    let bases = vec![vec![], vec![0], vec![1]];
    let args = vec![
        vec![],
        vec![vec![vec![Atom(VEC), Atom(OPEN), Param(0), Atom(CLOSE)]]],
        vec![vec![vec![Atom(U8)]]],
    ];
    let n_params = vec![1, 1, 0];
    (bases, args, n_params)
}

#[test]
fn arguments_follow_the_chain_of_bases() {
    let (bases, args, n_params) = generic_chain();
    assert_eq!(chain_arguments(&bases, &args, &n_params, 2, &vec![1]), vec![vec![Atom(U8)]]);
    assert_eq!(
        chain_arguments(&bases, &args, &n_params, 2, &vec![1, 0]),
        vec![vec![Atom(VEC), Atom(OPEN), Atom(U8), Atom(CLOSE)]]
    );
    assert_eq!(
        chain_arguments(&bases, &args, &n_params, 1, &vec![0]),
        vec![vec![Atom(VEC), Atom(OPEN), Param(0), Atom(CLOSE)]]
    );
}

#[test]
fn the_empty_chain_gives_the_class_its_own_parameters() {
    let (bases, args, n_params) = generic_chain();
    assert_eq!(chain_arguments(&bases, &args, &n_params, 1, &vec![]), vec![vec![Param(0)]]);
    assert_eq!(chain_arguments(&bases, &args, &n_params, 2, &vec![]), Vec::<Vec<TypeToken>>::new());
}

#[test]
fn arguments_compose_along_chains() {
    let (bases, args, n_params) = generic_chain();
    let first = chain_arguments(&bases, &args, &n_params, 2, &vec![1]);
    let rest = chain_arguments(&bases, &args, &n_params, 1, &vec![0]);
    assert_eq!(
        types_in_context(&rest, &first),
        chain_arguments(&bases, &args, &n_params, 2, &vec![1, 0])
    );
}

#[test]
fn inherited_signatures_are_seen_in_context() {
    let (bases, args, n_params) = generic_chain();
    let subs = chain_arguments(&bases, &args, &n_params, 2, &vec![1, 0]);
    // fn push(&mut self, item: T) -> Option<T>, written in Root<T>
    let arg_types = vec![vec![Param(0)]];
    assert_eq!(
        types_in_context(&arg_types, &subs),
        vec![vec![Atom(VEC), Atom(OPEN), Atom(U8), Atom(CLOSE)]]
    );
}
