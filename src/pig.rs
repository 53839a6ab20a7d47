use vstd::prelude::*;

use crate::config::ConfigEntry;
use crate::reference::strings_view;
use crate::text::{is_within, join, join_path, parent, parent_of, string_of};

verus! {

/// The pipeline's rules on output files.
pub struct Pig;

/// The suffix that marks a template.
pub open spec fn template_suffix() -> Seq<char> {
    ".jinja"@
}

/// Where a template's output goes: its name without the template suffix, under `dir`.
pub open spec fn output_path(dir: Seq<char>, template: Seq<char>) -> Seq<char> {
    join(dir, template.subrange(0, template.len() - template_suffix().len()))
}

/// A template name that carries the suffix.
pub open spec fn is_template(name: Seq<char>) -> bool {
    template_suffix().is_suffix_of(name)
}

/// The outputs of all entries, entry by entry, template by template.
pub open spec fn expected(dirs: Seq<Seq<char>>, names: Seq<Seq<Seq<char>>>) -> Seq<Seq<char>>
    decreases names.len(),
{
    if names.len() == 0 {
        Seq::empty()
    } else {
        let n = names.len() - 1;
        expected(dirs, names.subrange(0, n)) + names[n].map_values(
            |t: Seq<char>| output_path(dirs[n], t),
        )
    }
}

/// The first item of `s` that repeats an earlier one.
pub open spec fn first_repeat(s: Seq<Seq<char>>) -> Option<Seq<char>>
    decreases s.len(),
{
    if s.len() == 0 {
        None
    } else {
        match first_repeat(s.drop_last()) {
            Some(p) => Some(p),
            None => if s.drop_last().contains(s.last()) {
                Some(s.last())
            } else {
                None
            },
        }
    }
}

/// The context snapshot files of an entry, which cleaning leaves alone.
pub open spec fn context_json(dir: Seq<char>) -> Seq<char> {
    join(dir, ".pig.context.json"@)
}

pub open spec fn context_yaml(dir: Seq<char>) -> Seq<char> {
    join(dir, ".pig.context.yaml"@)
}

/// A file under the output directory `dir` that no template produces and that
/// is neither of the two context snapshots.
pub open spec fn is_stale(dir: Seq<char>, outputs: Seq<Seq<char>>, f: Seq<char>) -> bool {
    !outputs.contains(f) && f != context_json(dir) && f != context_yaml(dir)
}

pub open spec fn stale_files(dir: Seq<char>, outputs: Seq<Seq<char>>, files: Seq<Seq<char>>) -> Seq<
    Seq<char>,
> {
    files.filter(stale_in(dir, outputs))
}

pub open spec fn stale_in(dir: Seq<char>, outputs: Seq<Seq<char>>) -> spec_fn(Seq<char>) -> bool {
    |f: Seq<char>| is_stale(dir, outputs, f)
}

/// A path below the directory `dir`, relative to it.
pub open spec fn relative(file: Seq<char>, dir: Seq<char>) -> Seq<char> {
    if dir.len() > 0 && dir.last() == '/' {
        file.subrange(dir.len() as int, file.len() as int)
    } else {
        file.subrange(dir.len() as int + 1, file.len() as int)
    }
}

/// Where a stale file of `dir` is moved: the same relative path under `trash`.
pub open spec fn relocated(trash: Seq<char>, dir: Seq<char>, file: Seq<char>) -> Seq<char> {
    join(trash, relative(file, dir))
}

/// The trash directory of one cleaning pass: `.pig.trash/<stamp>` beside the
/// configuration file.
pub open spec fn trash_dir(config_file: Seq<char>, stamp: Seq<char>) -> Seq<char> {
    join(join(parent(config_file), ".pig.trash"@), stamp)
}

/// Each file paired with its place under `trash`.
pub open spec fn moved_to(trash: Seq<char>, dir: Seq<char>) -> spec_fn(Seq<char>) -> (
    Seq<char>,
    Seq<char>,
) {
    |f: Seq<char>| (f, relocated(trash, dir, f))
}

pub open spec fn moves_view(v: Seq<(String, String)>) -> Seq<(Seq<char>, Seq<char>)> {
    v.map_values(|m: (String, String)| (m.0@, m.1@))
}

pub open spec fn names_view(v: Seq<Vec<String>>) -> Seq<Seq<Seq<char>>> {
    v.map_values(|t: Vec<String>| strings_view(t@))
}

pub open spec fn dirs_view(v: Seq<ConfigEntry>) -> Seq<Seq<char>> {
    v.map_values(|e: ConfigEntry| e.output@)
}

/// Whether `s` holds `x`.
fn holds(s: &Vec<String>, x: &String) -> (r: bool)
    ensures
        r == strings_view(s@).contains(x@),
{
    let mut i: usize = 0;
    while i < s.len()
        invariant
            i <= s@.len(),
            forall|j: int| 0 <= j < i ==> s@[j]@ != x@,
        decreases s@.len() - i,
    {
        if s[i] == *x {
            assert(strings_view(s@)[i as int] == x@);
            return true;
        }
        i = i + 1;
    }
    assert(!strings_view(s@).contains(x@)) by {
        if strings_view(s@).contains(x@) {
            let j = choose|j: int| 0 <= j < s@.len() && strings_view(s@)[j] == x@;
            assert(strings_view(s@)[j] == s@[j]@);
        }
    }
    false
}

impl Pig {
    /// The output file of `template` for this entry.
    pub fn output(config: &ConfigEntry, template: &str) -> (r: String)
        requires
            is_template(template@),
        ensures
            r@ == output_path(config.output@, template@),
    {
        proof {
            reveal_strlit(".jinja");
        }
        let n = template.unicode_len();
        let name = string_of(template, 0, n - 6);
        join_path(config.output.as_str(), name.as_str())
    }

    /// All output files, or the first one that two templates would both write.
    #[verifier::loop_isolation(false)]
    pub fn outputs(entries: &Vec<ConfigEntry>, templates: &Vec<Vec<String>>) -> (r: Result<
        Vec<String>,
        String,
    >)
        requires
            entries@.len() == templates@.len(),
            forall|i: int, j: int|
                0 <= i < templates@.len() && 0 <= j < templates@[i]@.len() ==> is_template(
                    #[trigger] templates@[i]@[j]@,
                ),
        ensures
            match r {
                Ok(v) => strings_view(v@) == expected(dirs_view(entries@), names_view(templates@))
                    && first_repeat(expected(dirs_view(entries@), names_view(templates@))) is None,
                Err(p) => first_repeat(expected(dirs_view(entries@), names_view(templates@)))
                    == Some(p@),
            },
    {
        let ghost dirs = dirs_view(entries@);
        let ghost names = names_view(templates@);
        let mut out: Vec<String> = Vec::new();
        let mut i: usize = 0;
        while i < templates.len()
            invariant
                i <= templates@.len(),
                strings_view(out@) == expected(dirs, names.subrange(0, i as int)),
                first_repeat(strings_view(out@)) is None,
            decreases templates@.len() - i,
        {
            let ghost base = strings_view(out@);
            let ghost now = names[i as int].map_values(|t: Seq<char>| output_path(dirs[i as int], t));
            let mut j: usize = 0;
            while j < templates[i].len()
                invariant
                    i < templates@.len(),
                    j <= templates@[i as int]@.len(),
                    strings_view(out@) == base + now.subrange(0, j as int),
                    first_repeat(strings_view(out@)) is None,
                decreases templates@[i as int]@.len() - j,
            {
                assert(names[i as int][j as int] == templates@[i as int]@[j as int]@);
                let p = Pig::output(&entries[i], templates[i][j].as_str());
                let ghost prev = strings_view(out@);
                proof {
                    assert(dirs[i as int] == entries@[i as int].output@);
                    assert(now[j as int] == p@);
                    assert(prev.push(p@) =~= base + now.subrange(0, j + 1));
                }
                if holds(&out, &p) {
                    proof {
                        let full = expected(dirs, names);
                        assert(prev.push(p@).drop_last() =~= prev);
                        lemma_first_repeat_extends(prev.push(p@), full, dirs, names, i as int, j as int + 1);
                    }
                    return Err(p);
                }
                out.push(p);
                j = j + 1;
                proof {
                    assert(strings_view(out@) =~= prev.push(p@));
                    assert(prev.push(p@).drop_last() =~= prev);
                    assert(strings_view(out@) =~= base + now.subrange(0, j as int));
                }
            }
            proof {
                let n2 = names.subrange(0, i + 1);
                assert(n2.subrange(0, i as int) =~= names.subrange(0, i as int));
                assert(now.subrange(0, j as int) =~= now);
            }
            i = i + 1;
        }
        assert(names.subrange(0, i as int) =~= names);
        Ok(out)
    }

    /// The moves that put the stale files of this entry into `trash`: each stale
    /// file with its new place, in the order given. `files` are the regular
    /// files found below the entry's output directory.
    pub fn clean_entry(
        config: &ConfigEntry,
        outputs: &Vec<String>,
        files: &Vec<String>,
        trash: &String,
    ) -> (r: Vec<(String, String)>)
        requires
            forall|i: int|
                0 <= i < files@.len() ==> is_within(#[trigger] files@[i]@, config.output@)
                    && files@[i]@ != config.output@,
        ensures
            moves_view(r@) == stale_files(config.output@, strings_view(outputs@), strings_view(files@)).map_values(
                moved_to(trash@, config.output@),
            ),
    {
        let ghost dir = config.output@;
        let ghost outs = strings_view(outputs@);
        let ghost fs = strings_view(files@);
        let json = join_path(config.output.as_str(), ".pig.context.json");
        let yaml = join_path(config.output.as_str(), ".pig.context.yaml");
        let mut out: Vec<(String, String)> = Vec::new();
        let mut i: usize = 0;
        while i < files.len()
            invariant
                json@ == context_json(dir),
                yaml@ == context_yaml(dir),
                dir == config.output@,
                outs == strings_view(outputs@),
                fs == strings_view(files@),
                forall|k: int|
                    0 <= k < files@.len() ==> is_within(#[trigger] files@[k]@, config.output@)
                        && files@[k]@ != config.output@,
                i <= files@.len(),
                moves_view(out@) == stale_files(dir, outs, fs.subrange(0, i as int)).map_values(
                    moved_to(trash@, dir),
                ),
            decreases files@.len() - i,
        {
            let f = &files[i];
            let ghost prev = out@;
            let ghost sub = fs.subrange(0, i + 1);
            assert(sub.drop_last() =~= fs.subrange(0, i as int));
            assert(sub.last() == f@);
            let keep = holds(outputs, f) || *f == json || *f == yaml;
            let ghost before = stale_files(dir, outs, fs.subrange(0, i as int));
            assert(keep == !is_stale(dir, outs, f@));
            assert(stale_in(dir, outs)(f@) == !keep);
            reveal(Seq::filter);
            assert(sub.filter(stale_in(dir, outs)) == if !keep {
                sub.drop_last().filter(stale_in(dir, outs)).push(f@)
            } else {
                sub.drop_last().filter(stale_in(dir, outs))
            });
            if !keep {
                let to = Pig::relocation(config, trash, f);
                let ghost tv = to@;
                out.push((f.clone(), to));
                assert(stale_files(dir, outs, sub) == before.push(f@));
                assert(moves_view(out@) =~= moves_view(prev).push((f@, tv)));
                assert(before.push(f@).map_values(moved_to(trash@, dir)) =~= before.map_values(
                    moved_to(trash@, dir),
                ).push((f@, tv)));
            } else {
                assert(stale_files(dir, outs, sub) == before);
            }
            i = i + 1;
        }
        assert(fs.subrange(0, i as int) =~= fs);
        out
    }

    /// The new place of a file of this entry's output directory under `trash`.
    pub fn relocation(config: &ConfigEntry, trash: &String, file: &String) -> (r: String)
        requires
            is_within(file@, config.output@),
            file@ != config.output@,
        ensures
            r@ == relocated(trash@, config.output@, file@),
    {
        let n = file.as_str().unicode_len();
        let d = config.output.as_str().unicode_len();
        proof {
            let dir = config.output@;
            if !(dir.len() > 0 && dir.last() == '/' && dir.is_prefix_of(file@)) {
                assert((dir + seq!['/']).is_prefix_of(file@));
            }
        }
        let rel = if d > 0 && config.output.as_str().get_char(d - 1) == '/' {
            string_of(file.as_str(), d, n)
        } else {
            string_of(file.as_str(), d + 1, n)
        };
        join_path(trash.as_str(), rel.as_str())
    }

    /// The trash directory of a cleaning pass stamped `stamp`.
    pub fn trash(config_file: &String, stamp: &String) -> (r: String)
        ensures
            r@ == trash_dir(config_file@, stamp@),
    {
        let dir = parent_of(config_file.as_str());
        let t = join_path(dir.as_str(), ".pig.trash");
        join_path(t.as_str(), stamp.as_str())
    }
}

/// Once a prefix of the expected outputs repeats an item, the whole list
/// repeats that same item first.
proof fn lemma_first_repeat_extends(
    pre: Seq<Seq<char>>,
    full: Seq<Seq<char>>,
    dirs: Seq<Seq<char>>,
    names: Seq<Seq<Seq<char>>>,
    i: int,
    j: int,
)
    requires
        0 <= i < names.len(),
        0 <= j <= names[i].len(),
        full == expected(dirs, names),
        pre == expected(dirs, names.subrange(0, i)) + names[i].map_values(
            |t: Seq<char>| output_path(dirs[i], t),
        ).subrange(0, j),
        first_repeat(pre) is Some,
    ensures
        first_repeat(full) == first_repeat(pre),
{
    lemma_expected_prefix(dirs, names, i, j);
    assert(full.subrange(0, pre.len() as int) =~= pre);
    lemma_repeat_prefix(full, pre.len() as int);
}

proof fn lemma_expected_prefix(dirs: Seq<Seq<char>>, names: Seq<Seq<Seq<char>>>, i: int, j: int)
    requires
        0 <= i < names.len(),
        0 <= j <= names[i].len(),
    ensures
        (expected(dirs, names.subrange(0, i)) + names[i].map_values(
            |t: Seq<char>| output_path(dirs[i], t),
        ).subrange(0, j)).is_prefix_of(expected(dirs, names)),
    decreases names.len(),
{
    let n = names.len() - 1;
    let front = names.subrange(0, n);
    let now = names[i].map_values(|t: Seq<char>| output_path(dirs[i], t));
    let p = expected(dirs, names.subrange(0, i)) + now.subrange(0, j);
    let m = expected(dirs, front);
    assert(expected(dirs, names) == m + names[n].map_values(|t: Seq<char>| output_path(dirs[n], t)));
    if i < n {
        assert(front.subrange(0, i) =~= names.subrange(0, i));
        assert(front[i] == names[i]);
        lemma_expected_prefix(dirs, front, i, j);
        assert(p.is_prefix_of(m));
        assert(expected(dirs, names).subrange(0, p.len() as int) =~= m.subrange(0, p.len() as int));
    } else {
        assert(front =~= names.subrange(0, i));
        assert(expected(dirs, names).subrange(0, p.len() as int) =~= p);
    }
}

/// A repeat found in a prefix is the first repeat of the whole sequence.
proof fn lemma_repeat_prefix(s: Seq<Seq<char>>, k: int)
    requires
        0 <= k <= s.len(),
        first_repeat(s.subrange(0, k)) is Some,
    ensures
        first_repeat(s) == first_repeat(s.subrange(0, k)),
    decreases s.len() - k,
{
    if k < s.len() {
        let a = s.subrange(0, k + 1);
        assert(a.drop_last() =~= s.subrange(0, k));
        lemma_repeat_prefix(s, k + 1);
    } else {
        assert(s.subrange(0, k) =~= s);
    }
}

proof fn lemma_filter_from(s: Seq<Seq<char>>, p: spec_fn(Seq<char>) -> bool)
    ensures
        forall|i: int| 0 <= i < s.filter(p).len() ==> s.contains(#[trigger] s.filter(p)[i]),
    decreases s.len(),
{
    reveal(Seq::filter);
    if s.len() > 0 {
        let t = s.drop_last();
        lemma_filter_from(t, p);
        assert forall|i: int| 0 <= i < s.filter(p).len() implies s.contains(#[trigger] s.filter(p)[i]) by {
            if i < t.filter(p).len() {
                assert(s.filter(p)[i] == t.filter(p)[i]);
                let j = choose|j: int| 0 <= j < t.len() && t[j] == t.filter(p)[i];
                assert(s[j] == t[j]);
            } else {
                assert(s.filter(p)[i] == s.last());
                assert(s[s.len() - 1] == s.last());
            }
        }
    }
}

/// The files that a cleaning pass leaves in place.
pub open spec fn kept_files(dir: Seq<char>, outputs: Seq<Seq<char>>, files: Seq<Seq<char>>) -> Seq<
    Seq<char>,
> {
    files.filter(|f: Seq<char>| !is_stale(dir, outputs, f))
}

/// Cleaning moves exactly the files that no template produces and that are
/// neither context snapshot; expected outputs and the two snapshots stay, and
/// nothing else does. A second pass over what the first one left moves nothing.
pub proof fn clean_moves_only_stale(dir: Seq<char>, outputs: Seq<Seq<char>>, files: Seq<Seq<char>>)
    ensures
        forall|f: Seq<char>|
            #[trigger] stale_files(dir, outputs, files).contains(f) <==> files.contains(f)
                && is_stale(dir, outputs, f),
        stale_files(dir, outputs, kept_files(dir, outputs, files)) == Seq::<Seq<char>>::empty(),
        forall|f: Seq<char>|
            #[trigger] kept_files(dir, outputs, files).contains(f) ==> outputs.contains(f) || f
                == context_json(dir) || f == context_yaml(dir),
{
    broadcast use vstd::seq_lib::group_filter_ensures;

    let st = stale_files(dir, outputs, files);
    lemma_filter_from(files, stale_in(dir, outputs));
    assert forall|f: Seq<char>| #[trigger] st.contains(f) <==> files.contains(f) && is_stale(dir, outputs, f) by {
        if files.contains(f) && is_stale(dir, outputs, f) {
            let i = choose|i: int| 0 <= i < files.len() && files[i] == f;
            files.lemma_filter_contains(stale_in(dir, outputs), i);
        }
        if st.contains(f) {
            let i = choose|i: int| 0 <= i < st.len() && st[i] == f;
            files.lemma_filter_pred(stale_in(dir, outputs), i);
        }
    }
    let kept = kept_files(dir, outputs, files);
    assert forall|f: Seq<char>| #[trigger] kept.contains(f) implies outputs.contains(f) || f
        == context_json(dir) || f == context_yaml(dir) by {
        let i = choose|i: int| 0 <= i < kept.len() && kept[i] == f;
        files.lemma_filter_pred(|f: Seq<char>| !is_stale(dir, outputs, f), i);
    }
    let again = stale_files(dir, outputs, kept);
    if again.len() > 0 {
        lemma_filter_from(kept, stale_in(dir, outputs));
        kept.lemma_filter_pred(stale_in(dir, outputs), 0);
        assert(kept.contains(again[0]));
        let j = choose|j: int| 0 <= j < kept.len() && kept[j] == again[0];
        files.lemma_filter_pred(|f: Seq<char>| !is_stale(dir, outputs, f), j);
    }
    assert(again =~= Seq::<Seq<char>>::empty());
}

/// The list of outputs has no first repeat exactly when no two items are equal:
/// building it fails exactly when two templates share an output file.
pub proof fn outputs_collide_iff_repeat(s: Seq<Seq<char>>)
    ensures
        first_repeat(s) is None <==> s.no_duplicates(),
    decreases s.len(),
{
    if s.len() > 0 {
        let t = s.drop_last();
        outputs_collide_iff_repeat(t);
        if s.no_duplicates() {
            assert(t.no_duplicates()) by {
                assert forall|a: int, b: int| 0 <= a < t.len() && 0 <= b < t.len() && a != b implies t[a] != t[b] by {
                    assert(t[a] == s[a] && t[b] == s[b]);
                }
            }
            if t.contains(s.last()) {
                let j = choose|j: int| 0 <= j < t.len() && t[j] == s.last();
                assert(s[j] == s[s.len() - 1]);
            }
        }
        if first_repeat(s) is None {
            assert forall|a: int, b: int| 0 <= a < s.len() && 0 <= b < s.len() && a != b implies s[a] != s[b] by {
                if a < s.len() - 1 && b < s.len() - 1 {
                    assert(t[a] == s[a] && t[b] == s[b]);
                } else if a < s.len() - 1 {
                    assert(t[a] == s[a]);
                    assert(!t.contains(s.last()));
                } else if b < s.len() - 1 {
                    assert(t[b] == s[b]);
                    assert(!t.contains(s.last()));
                }
            }
        }
    }
}

/// Where the outputs of entry `i` start in the list of all outputs.
pub open spec fn offset(names: Seq<Seq<Seq<char>>>, i: int) -> int
    decreases i,
{
    if i <= 0 {
        0
    } else {
        offset(names, i - 1) + names[i - 1].len()
    }
}

proof fn lemma_offset_prefix(names: Seq<Seq<Seq<char>>>, n: int, i: int)
    requires
        0 <= i <= n <= names.len(),
    ensures
        offset(names.subrange(0, n), i) == offset(names, i),
    decreases i,
{
    if i > 0 {
        lemma_offset_prefix(names, n, i - 1);
        assert(names.subrange(0, n)[i - 1] == names[i - 1]);
    }
}

proof fn lemma_offset_mono(names: Seq<Seq<Seq<char>>>, a: int, b: int)
    requires
        0 <= a <= b,
    ensures
        offset(names, a) <= offset(names, b),
    decreases b - a,
{
    if a < b {
        lemma_offset_mono(names, a, b - 1);
    }
}

/// The output of template `j` of entry `i` stands at `offset(names, i) + j`,
/// and every position holds one such output.
proof fn lemma_expected_at(dirs: Seq<Seq<char>>, names: Seq<Seq<Seq<char>>>)
    ensures
        expected(dirs, names).len() == offset(names, names.len() as int),
        forall|i: int, j: int|
            #![trigger names[i][j]]
            0 <= i < names.len() && 0 <= j < names[i].len() ==> expected(dirs, names)[offset(
                names,
                i,
            ) + j] == output_path(dirs[i], names[i][j]),
    decreases names.len(),
{
    if names.len() > 0 {
        let n = names.len() - 1;
        let front = names.subrange(0, n);
        let e = expected(dirs, names);
        let ef = expected(dirs, front);
        let tail = names[n].map_values(|t: Seq<char>| output_path(dirs[n], t));
        lemma_expected_at(dirs, front);
        lemma_offset_prefix(names, n, n);
        assert(e == ef + tail);
        assert forall|i: int, j: int|
            #![trigger names[i][j]]
            0 <= i < names.len() && 0 <= j < names[i].len() implies e[offset(names, i) + j]
                == output_path(dirs[i], names[i][j]) by {
            if i < n {
                lemma_offset_prefix(names, n, i);
                assert(front[i] == names[i]);
                assert(front[i][j] == names[i][j]);
                lemma_offset_mono(names, i + 1, n);
                assert(offset(names, i + 1) == offset(names, i) + names[i].len());
                assert(ef.len() == offset(front, n));
                assert(offset(names, i) + j < ef.len());
                assert(ef[offset(front, i) + j] == output_path(dirs[i], front[i][j]));
                lemma_offset_mono(names, 0, i);
                assert(e[offset(names, i) + j] == ef[offset(names, i) + j]);
            } else {
                lemma_offset_mono(names, 0, i);
                assert(e[offset(names, i) + j] == tail[j]);
            }
        }
    }
}

/// Every position of the list of outputs belongs to one template of one entry.
proof fn lemma_expected_pos(dirs: Seq<Seq<char>>, names: Seq<Seq<Seq<char>>>, p: int) -> (r: (
    int,
    int,
))
    requires
        0 <= p < expected(dirs, names).len(),
    ensures
        0 <= r.0 < names.len(),
        0 <= r.1 < names[r.0].len(),
        offset(names, r.0) + r.1 == p,
    decreases names.len(),
{
    let n = names.len() - 1;
    let front = names.subrange(0, n);
    let ef = expected(dirs, front);
    lemma_expected_at(dirs, front);
    lemma_expected_at(dirs, names);
    lemma_offset_prefix(names, n, n);
    if p < ef.len() {
        let (i, j) = lemma_expected_pos(dirs, front, p);
        lemma_offset_prefix(names, n, i);
        assert(front[i] == names[i]);
        (i, j)
    } else {
        (n, p - offset(names, n))
    }
}

/// Building the outputs fails exactly when two different templates, of the same
/// entry or of two entries, have the same output file.
pub proof fn outputs_collide_iff_shared(dirs: Seq<Seq<char>>, names: Seq<Seq<Seq<char>>>)
    ensures
        first_repeat(expected(dirs, names)) is Some <==> exists|i1: int, j1: int, i2: int, j2: int|
            0 <= i1 < names.len() && 0 <= j1 < names[i1].len() && 0 <= i2 < names.len() && 0 <= j2
                < names[i2].len() && (i1, j1) != (i2, j2) && #[trigger] output_path(
                dirs[i1],
                names[i1][j1],
            ) == #[trigger] output_path(dirs[i2], names[i2][j2]),
{
    let e = expected(dirs, names);
    lemma_expected_at(dirs, names);
    outputs_collide_iff_repeat(e);
    if exists|i1: int, j1: int, i2: int, j2: int|
        0 <= i1 < names.len() && 0 <= j1 < names[i1].len() && 0 <= i2 < names.len() && 0 <= j2
            < names[i2].len() && (i1, j1) != (i2, j2) && #[trigger] output_path(dirs[i1], names[i1][j1])
            == #[trigger] output_path(dirs[i2], names[i2][j2]) {
        let (i1, j1, i2, j2) = choose|i1: int, j1: int, i2: int, j2: int|
            0 <= i1 < names.len() && 0 <= j1 < names[i1].len() && 0 <= i2 < names.len() && 0 <= j2
                < names[i2].len() && (i1, j1) != (i2, j2) && #[trigger] output_path(
                dirs[i1],
                names[i1][j1],
            ) == #[trigger] output_path(dirs[i2], names[i2][j2]);
        lemma_offset_mono(names, 0, i1);
        lemma_offset_mono(names, 0, i2);
        let p1 = offset(names, i1) + j1;
        let p2 = offset(names, i2) + j2;
        assert(e[p1] == e[p2]);
        lemma_offset_mono(names, i1 + 1, names.len() as int);
        lemma_offset_mono(names, i2 + 1, names.len() as int);
        if i1 < i2 {
            lemma_offset_mono(names, i1 + 1, i2);
        } else if i2 < i1 {
            lemma_offset_mono(names, i2 + 1, i1);
        }
        assert(p1 != p2);
        assert(!e.no_duplicates());
    }
    if !e.no_duplicates() {
        let (a, b) = choose|a: int, b: int| 0 <= a < e.len() && 0 <= b < e.len() && a != b && e[a] == e[b];
        let (i1, j1) = lemma_expected_pos(dirs, names, a);
        let (i2, j2) = lemma_expected_pos(dirs, names, b);
        assert(e[a] == output_path(dirs[i1], names[i1][j1]));
        assert(e[b] == output_path(dirs[i2], names[i2][j2]));
        assert((i1, j1) != (i2, j2));
    }
}

} // verus!
