//! Helpers around file names and editor discovery.
//!
//! Listing directories and probing the file system stay outside the library;
//! these are the pure parts: splitting a path into its final name, and
//! assembling the editor candidates that were found present.

use vstd::prelude::*;

verus! {

/// A file's bare name together with its full path.
#[derive(Debug, Eq, PartialEq, PartialOrd, Ord)]
pub struct FileNames {
    pub name: String,
    pub path: String,
}

/// The part of `s` after its last `/`; all of `s` when it has none.
pub open spec fn last_component(s: Seq<char>) -> Seq<char>
    decreases s.len(),
{
    if s.len() == 0 {
        s
    } else if s.last() == '/' {
        Seq::empty()
    } else {
        last_component(s.drop_last()).push(s.last())
    }
}

/// `base` and `bin` joined with a path separator.
pub open spec fn joined(base: Seq<char>, bin: Seq<char>) -> Seq<char> {
    base + seq!['/'] + bin
}

/// The joins of exactly those binaries whose presence flag is set, in order.
pub open spec fn selections(bins: Seq<Seq<char>>, flags: Seq<bool>, base: Seq<char>) -> Seq<
    Seq<char>,
>
    decreases bins.len(),
{
    if bins.len() == 0 {
        Seq::empty()
    } else {
        (if flags[0] {
            seq![joined(base, bins[0])]
        } else {
            Seq::empty()
        }) + selections(bins.skip(1), flags.skip(1), base)
    }
}

/// One more binary at the end extends the selections by at most its join.
proof fn lemma_selections_snoc(bins: Seq<Seq<char>>, flags: Seq<bool>, base: Seq<char>, b: Seq<
    char,
>, f: bool)
    requires
        bins.len() == flags.len(),
    ensures
        selections(bins.push(b), flags.push(f), base) == selections(bins, flags, base) + (if f {
            seq![joined(base, b)]
        } else {
            Seq::<Seq<char>>::empty()
        }),
    decreases bins.len(),
{
    let tail: Seq<Seq<char>> = if f {
        seq![joined(base, b)]
    } else {
        Seq::empty()
    };
    if bins.len() == 0 {
        assert(bins.push(b)[0] == b && flags.push(f)[0] == f);
        assert(bins.push(b).skip(1) =~= Seq::<Seq<char>>::empty());
        assert(flags.push(f).skip(1) =~= Seq::<bool>::empty());
        assert(selections(Seq::<Seq<char>>::empty(), Seq::<bool>::empty(), base)
            =~= Seq::<Seq<char>>::empty());
        assert(selections(bins.push(b), flags.push(f), base) =~= tail);
        assert(selections(bins, flags, base) + tail =~= tail);
    } else {
        assert(bins.push(b)[0] == bins[0] && flags.push(f)[0] == flags[0]);
        assert(bins.push(b).skip(1) =~= bins.skip(1).push(b));
        assert(flags.push(f).skip(1) =~= flags.skip(1).push(f));
        lemma_selections_snoc(bins.skip(1), flags.skip(1), base, b, f);
        let head: Seq<Seq<char>> = if flags[0] {
            seq![joined(base, bins[0])]
        } else {
            Seq::empty()
        };
        assert(head + (selections(bins.skip(1), flags.skip(1), base) + tail) =~= (head
            + selections(bins.skip(1), flags.skip(1), base)) + tail);
    }
}

impl FileNames {
    /// Splits a path into its final name and the path itself.
    pub fn new(p: String) -> (r: FileNames)
        ensures
            r.path == p,
            r.name@ == last_component(p@),
    {
        let cs = crate::text::chars_of(p.as_str());
        let mut name = String::new();
        let mut i: usize = cs.len();
        let mut start: usize = 0;
        let mut found = false;
        while i > 0
            invariant_except_break
                i <= cs@.len(),
                cs@ == p@,
                !found,
                start == 0,
                forall|k: int| i <= k < cs@.len() ==> cs@[k] != '/',
            ensures
                cs@ == p@,
                found ==> 1 <= start <= cs@.len() && cs@[start - 1] == '/',
                !found ==> start == 0,
                forall|k: int| start <= k < cs@.len() ==> cs@[k] != '/',
            decreases i,
        {
            i = i - 1;
            if cs[i] == '/' {
                found = true;
                start = i + 1;
                break ;
            }
        }
        proof {
            lemma_last_component_from(p@, start as int);
        }
        let mut j: usize = start;
        while j < cs.len()
            invariant
                start <= j <= cs@.len(),
                cs@ == p@,
                name@ == p@.subrange(start as int, j as int),
            decreases cs@.len() - j,
        {
            proof {
                assert(p@.subrange(start as int, j + 1 as int) =~= p@.subrange(
                    start as int,
                    j as int,
                ).push(p@[j as int]));
            }
            crate::text::push_char(&mut name, cs[j]);
            j = j + 1;
        }
        FileNames { name, path: p }
    }
}

/// When everything from `start` on is free of separators, and `start` is
/// either the front or just past a separator, the last component is the
/// suffix from `start`.
proof fn lemma_last_component_from(s: Seq<char>, start: int)
    requires
        0 <= start <= s.len(),
        start == 0 || s[start - 1] == '/',
        forall|k: int| start <= k < s.len() ==> s[k] != '/',
    ensures
        last_component(s) == s.subrange(start, s.len() as int),
    decreases s.len(),
{
    if s.len() == 0 {
        assert(last_component(s) =~= s.subrange(0, 0));
    } else if s.last() == '/' {
        assert(start == s.len());
        assert(last_component(s) =~= s.subrange(start, s.len() as int));
    } else if start == s.len() {
        assert(s.last() != '/');
        assert(s[start - 1] == '/');
        assert(false);
    } else {
        lemma_last_component_from(s.drop_last(), start);
        assert(s.drop_last().subrange(start, s.drop_last().len() as int) =~= s.subrange(
            start,
            s.len() - 1,
        ));
        assert(s.subrange(start, s.len() - 1).push(s.last()) =~= s.subrange(
            start,
            s.len() as int,
        ));
    }
}

/// Keeps, of the editor binaries, those marked present, appending each one's
/// path under `binary_base_path` to `selector` in order.
pub fn check_for_editor(
    binaries: &Vec<String>,
    binary_base_path: &str,
    present: &Vec<bool>,
    selector: &mut Vec<String>,
)
    requires
        binaries@.len() == present@.len(),
    ensures
        final(selector)@.len() == old(selector)@.len() + selections(
            binaries@.map_values(|b: String| b@),
            present@,
            binary_base_path@,
        ).len(),
        forall|k: int|
            0 <= k < old(selector)@.len() ==> final(selector)@[k] == old(selector)@[k],
        forall|k: int|
            0 <= k < selections(binaries@.map_values(|b: String| b@), present@, binary_base_path@).len()
                ==> (#[trigger] final(selector)@[old(selector)@.len() + k])@ == selections(
                binaries@.map_values(|b: String| b@),
                present@,
                binary_base_path@,
            )[k],
{
    let ghost base = selector@;
    let ghost bins = binaries@.map_values(|b: String| b@);
    let mut i: usize = 0;
    while i < binaries.len()
        invariant
            i <= binaries@.len(),
            binaries@.len() == present@.len(),
            bins == binaries@.map_values(|b: String| b@),
            selector@.len() == base.len() + selections(
                bins.take(i as int),
                present@.take(i as int),
                binary_base_path@,
            ).len(),
            forall|k: int| 0 <= k < base.len() ==> selector@[k] == base[k],
            forall|k: int|
                0 <= k < selections(
                    bins.take(i as int),
                    present@.take(i as int),
                    binary_base_path@,
                ).len() ==> (#[trigger] selector@[base.len() + k])@ == selections(
                    bins.take(i as int),
                    present@.take(i as int),
                    binary_base_path@,
                )[k],
        decreases binaries@.len() - i,
    {
        proof {
            assert(bins.take(i + 1 as int) =~= bins.take(i as int).push(bins[i as int]));
            assert(present@.take(i + 1 as int) =~= present@.take(i as int).push(
                present@[i as int],
            ));
            lemma_selections_snoc(
                bins.take(i as int),
                present@.take(i as int),
                binary_base_path@,
                bins[i as int],
                present@[i as int],
            );
        }
        if present[i] {
            let mut path = binary_base_path.to_owned();
            path.append("/");
            path.append(binaries[i].as_str());
            proof {
                reveal_strlit("/");
                assert(path@ =~= joined(binary_base_path@, bins[i as int]));
            }
            selector.push(path);
        }
        i = i + 1;
    }
    proof {
        assert(bins.take(bins.len() as int) =~= bins);
        assert(present@.take(present@.len() as int) =~= present@);
    }
}

} // verus!
