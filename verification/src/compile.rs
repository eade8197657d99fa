use vstd::prelude::*;

verus! {

/// One candidate input path for local compilation, as the caller observed
/// it on disk: the path's text, whether the file exists, and the textual
/// parent and grandparent directories to add as include search paths (or
/// nothing, for a path without a parent).
pub struct CandidatePath {
    pub path: String,
    pub exists: bool,
    pub include_dirs: Option<(String, String)>,
}

/// The arguments one candidate contributes: a path that does not exist on
/// disk contributes nothing and is skipped silently; one that exists names
/// itself as an input, and its parent and grandparent directories as
/// include search paths.
pub open spec fn spec_candidate_args(c: CandidatePath) -> Seq<Seq<char>> {
    if !c.exists {
        Seq::empty()
    } else {
        match c.include_dirs {
            Option::None => seq![c.path@],
            Option::Some(dirs) => seq![c.path@, "-I"@, dirs.0@, "-I"@, dirs.1@],
        }
    }
}

/// The arguments contributed by a list of candidates, in order.
pub open spec fn spec_candidate_list_args(cs: Seq<CandidatePath>) -> Seq<Seq<char>>
    decreases cs.len(),
{
    if cs.len() == 0 {
        Seq::empty()
    } else {
        spec_candidate_list_args(cs.drop_last()) + spec_candidate_args(cs.last())
    }
}

/// The complete compiler argument list: include already-imported files,
/// include source position info, the one global include directory, the
/// output path, then each surviving input with its include directories.
pub open spec fn spec_protoc_args(
    global_include: Seq<char>,
    output: Seq<char>,
    cs: Seq<CandidatePath>,
) -> Seq<Seq<char>> {
    seq![
        "--include_imports"@,
        "--include_source_info"@,
        "-I"@,
        global_include,
        "-o"@,
        output,
    ] + spec_candidate_list_args(cs)
}

/// Build the compiler's argument list. A candidate whose file does not
/// exist on disk contributes no argument at all, so the invocation's file
/// arguments hold only the paths that exist; each surviving path also
/// contributes its parent and grandparent directories as include paths.
pub fn build_protoc_args(
    global_include: &String,
    output_path: &String,
    candidates: &Vec<CandidatePath>,
) -> (args: Vec<String>)
    ensures
        args.deep_view() == spec_protoc_args(global_include@, output_path@, candidates@),
{
    let mut args: Vec<String> = Vec::new();
    args.push("--include_imports".to_owned());
    args.push("--include_source_info".to_owned());
    args.push("-I".to_owned());
    args.push(global_include.clone());
    args.push("-o".to_owned());
    args.push(output_path.clone());
    proof {
        reveal_strlit("--include_imports");
        reveal_strlit("--include_source_info");
        reveal_strlit("-I");
        reveal_strlit("-o");
        assert(candidates@.subrange(0, 0) =~= Seq::<CandidatePath>::empty());
        assert(args.deep_view() =~= spec_protoc_args(
            global_include@,
            output_path@,
            candidates@.subrange(0, 0),
        ));
    }
    let mut i: usize = 0;
    while i < candidates.len()
        invariant
            0 <= i <= candidates@.len(),
            args.deep_view() == spec_protoc_args(
                global_include@,
                output_path@,
                candidates@.subrange(0, i as int),
            ),
        decreases candidates@.len() - i,
    {
        let ghost prefix = candidates@.subrange(0, i as int);
        let c = &candidates[i];
        if c.exists {
            let ghost dv0 = args.deep_view();
            args.push(c.path.clone());
            proof {
                assert(args.deep_view() =~= dv0.push(c.path@));
            }
            match &c.include_dirs {
                Option::Some(dirs) => {
                    let ghost dv1 = args.deep_view();
                    args.push("-I".to_owned());
                    proof {
                        assert(args.deep_view() =~= dv1.push("-I"@));
                    }
                    let ghost dv2 = args.deep_view();
                    args.push(dirs.0.clone());
                    proof {
                        assert(args.deep_view() =~= dv2.push(dirs.0@));
                    }
                    let ghost dv3 = args.deep_view();
                    args.push("-I".to_owned());
                    proof {
                        assert(args.deep_view() =~= dv3.push("-I"@));
                    }
                    let ghost dv4 = args.deep_view();
                    args.push(dirs.1.clone());
                    proof {
                        assert(args.deep_view() =~= dv4.push(dirs.1@));
                    }
                },
                Option::None => {},
            }
        }
        proof {
            let next = candidates@.subrange(0, i + 1);
            assert(next.drop_last() =~= prefix);
            assert(next.last() == candidates@[i as int]);
            assert(spec_candidate_list_args(next) == spec_candidate_list_args(prefix)
                + spec_candidate_args(candidates@[i as int]));
            assert(args.deep_view() =~= spec_protoc_args(global_include@, output_path@, next));
        }
        i += 1;
    }
    proof {
        assert(candidates@.subrange(0, candidates@.len() as int) =~= candidates@);
    }
    args
}

} // verus!
