//! The shared immutable context: the canonicalized input root and working
//! directory, the list of input files, reverse lookup by path hash, and the
//! deterministic locations of everything the pipeline writes.
//!
//! Path canonicalization is purely lexical, on `/`-separated paths: repeated
//! separators collapse, `.` components vanish, and `..` pops the last
//! component where one exists.
use vstd::prelude::*;

verus! {

use crate::hashes::hash_path;
use crate::hashes::path_hash_of;
use crate::text::str_chars;
use crate::text::string_from_chars;

/// Length of the leading run of non-separator characters.
pub open spec fn seg_len(s: Seq<char>) -> nat
    decreases s.len(),
{
    if s.len() > 0 && s[0] != '/' {
        1 + seg_len(s.drop_first())
    } else {
        0
    }
}

pub proof fn lemma_seg_len(s: Seq<char>)
    ensures
        seg_len(s) <= s.len(),
        forall|k: int| 0 <= k < seg_len(s) ==> #[trigger] s[k] != '/',
        seg_len(s) < s.len() ==> s[seg_len(s) as int] == '/',
    decreases s.len(),
{
    if s.len() > 0 && s[0] != '/' {
        lemma_seg_len(s.drop_first());
        assert forall|k: int| 0 <= k < seg_len(s) implies #[trigger] s[k] != '/' by {
            if k > 0 {
                assert(s.drop_first()[k - 1] == s[k]);
            }
        }
        if seg_len(s) < s.len() {
            assert(s.drop_first()[seg_len(s) as int - 1] == s[seg_len(s) as int]);
        }
    }
}

pub proof fn lemma_seg_len_is(s: Seq<char>, m: int)
    requires
        0 <= m <= s.len(),
        forall|k: int| 0 <= k < m ==> #[trigger] s[k] != '/',
        m == s.len() || s[m] == '/',
    ensures
        seg_len(s) == m,
    decreases s.len(),
{
    if m == 0 {
    } else {
        assert(s[0] != '/');
        assert forall|k: int| 0 <= k < m - 1 implies #[trigger] s.drop_first()[k] != '/' by {
            assert(s.drop_first()[k] == s[k + 1]);
        }
        if m - 1 < s.drop_first().len() {
            assert(s.drop_first()[m - 1] == s[m]);
        }
        lemma_seg_len_is(s.drop_first(), m - 1);
    }
}

/// The raw components of a path: its maximal runs of non-separator
/// characters, in order.
pub open spec fn raw_components(s: Seq<char>) -> Seq<Seq<char>>
    decreases s.len(),
    when s.len() >= 0
    via raw_components_decreases
{
    if s.len() == 0 {
        Seq::empty()
    } else if s[0] == '/' {
        raw_components(s.drop_first())
    } else {
        seq![s.take(seg_len(s) as int)] + raw_components(s.skip(seg_len(s) as int))
    }
}

#[via_fn]
proof fn raw_components_decreases(s: Seq<char>) {
    if s.len() > 0 && s[0] != '/' {
        lemma_seg_len(s);
    }
}

/// One canonicalization step: `.` is dropped, `..` pops where possible, a
/// plain component is pushed.
pub open spec fn apply_component(stack: Seq<Seq<char>>, c: Seq<char>) -> Seq<Seq<char>> {
    if c == seq!['.'] {
        stack
    } else if c == seq!['.', '.'] {
        if stack.len() > 0 {
            stack.drop_last()
        } else {
            stack
        }
    } else {
        stack.push(c)
    }
}

/// The component stack after canonicalizing a component list.
pub open spec fn canon_stack(comps: Seq<Seq<char>>) -> Seq<Seq<char>>
    decreases comps.len(),
{
    if comps.len() == 0 {
        Seq::empty()
    } else {
        apply_component(canon_stack(comps.drop_last()), comps.last())
    }
}

/// Components joined with single separators.
pub open spec fn join_slash(comps: Seq<Seq<char>>) -> Seq<char>
    decreases comps.len(),
{
    if comps.len() == 0 {
        Seq::empty()
    } else if comps.len() == 1 {
        comps.first()
    } else {
        join_slash(comps.drop_last()) + seq!['/'] + comps.last()
    }
}

/// The lexical canonicalization of a path: its surviving components joined,
/// behind a root separator where the path was absolute.
pub open spec fn canon_of(s: Seq<char>) -> Seq<char> {
    let stack = canon_stack(raw_components(s));
    if s.len() > 0 && s[0] == '/' {
        seq!['/'] + join_slash(stack)
    } else {
        join_slash(stack)
    }
}

/// The shared read-only context of one run.
#[derive(Clone)]
pub struct Context {
    input_folder: String,
    tmp: String,
    input_files: Vec<String>,
}

/// Canonicalizes one path string, lexically.
pub fn canonicalize_path(path: &str) -> (r: String)
    ensures
        r@ == canon_of(path@),
{
    let chars = str_chars(path);
    let n = chars.len();
    let rooted = n > 0 && chars[0] == '/';
    let mut stack: Vec<Vec<char>> = Vec::new();
    let mut i: usize = 0;
    proof {
        assert(path@.skip(0) =~= path@);
        assert(stack.deep_view() =~= Seq::<Seq<char>>::empty());
        assert(Seq::<Seq<char>>::empty() + raw_components(path@) =~= raw_components(path@));
    }
    while i < n
        invariant
            i <= n,
            n == path@.len(),
            chars@ == path@,
            exists|done: Seq<Seq<char>>|
                raw_components(path@) == #[trigger] (done + raw_components(path@.skip(i as int)))
                    && stack.deep_view() == canon_stack(done),
        decreases n - i,
    {
        let ghost done0 = choose|done: Seq<Seq<char>>|
            raw_components(path@) == #[trigger] (done + raw_components(path@.skip(i as int)))
                && stack.deep_view() == canon_stack(done);
        if chars[i] == '/' {
            proof {
                assert(path@.skip(i as int)[0] == path@[i as int]);
                assert(path@.skip(i as int).drop_first() =~= path@.skip(i as int + 1));
                assert(raw_components(path@.skip(i as int)) == raw_components(
                    path@.skip(i as int + 1),
                ));
                assert(raw_components(path@) == done0 + raw_components(path@.skip(i as int + 1)));
            }
            i = i + 1;
        } else {
            let ghost rest = path@.skip(i as int);
            let start = i;
            let mut j = i + 1;
            while j < n
                invariant
                    start < j <= n,
                    n == path@.len(),
                    chars@ == path@,
                    forall|k: int| start <= k < j ==> #[trigger] path@[k] != '/',
                ensures
                    start < j <= n,
                    forall|k: int| start <= k < j ==> #[trigger] path@[k] != '/',
                    j == n || path@[j as int] == '/',
                decreases n - j,
            {
                if chars[j] == '/' {
                    break ;
                }
                j = j + 1;
            }
            proof {
                assert(rest[0] == path@[start as int]);
                assert forall|k: int| 0 <= k < j - start implies #[trigger] rest[k] != '/' by {
                    assert(rest[k] == path@[start + k]);
                }
                if j < n {
                    assert(rest[j - start] == path@[j as int]);
                }
                lemma_seg_len_is(rest, j - start);
            }
            let mut comp: Vec<char> = Vec::new();
            let mut k = start;
            while k < j
                invariant
                    start <= k <= j <= n,
                    chars@ == path@,
                    n == path@.len(),
                    comp@ =~= path@.subrange(start as int, k as int),
                decreases j - k,
            {
                comp.push(chars[k]);
                k = k + 1;
                assert(comp@ =~= path@.subrange(start as int, k as int));
            }
            let ghost cv = comp@;
            proof {
                assert(rest.take((j - start) as int) =~= path@.subrange(start as int, j as int));
                assert(rest.skip((j - start) as int) =~= path@.skip(j as int));
                assert(raw_components(rest) == seq![rest.take(seg_len(rest) as int)]
                    + raw_components(rest.skip(seg_len(rest) as int)));
                assert(rest.take(seg_len(rest) as int) == cv);
                assert(raw_components(rest) == seq![cv] + raw_components(path@.skip(j as int)));
            }
            let is_dot = comp.len() == 1 && comp[0] == '.';
            let is_dotdot = comp.len() == 2 && comp[0] == '.' && comp[1] == '.';
            proof {
                if is_dot {
                    assert(cv =~= seq!['.']);
                }
                if is_dotdot {
                    assert(cv =~= seq!['.', '.']);
                }
                if !is_dot {
                    assert(cv != seq!['.']) by {
                        if cv == seq!['.'] {
                            assert(cv.len() == 1 && cv[0] == '.');
                        }
                    }
                }
                if !is_dotdot {
                    assert(cv != seq!['.', '.']) by {
                        if cv == seq!['.', '.'] {
                            assert(cv.len() == 2 && cv[0] == '.' && cv[1] == '.');
                        }
                    }
                }
            }
            let ghost old_stack = stack.deep_view();
            if is_dot {
            } else if is_dotdot {
                if stack.len() > 0 {
                    stack.pop();
                    proof {
                        assert(stack.deep_view() =~~= old_stack.drop_last());
                    }
                }
            } else {
                stack.push(comp);
                proof {
                    assert(stack.deep_view() =~~= old_stack.push(cv));
                }
            }
            proof {
                let done1 = done0.push(cv);
                assert(done1.drop_last() =~= done0);
                assert(done1.last() == cv);
                assert(canon_stack(done1) == apply_component(canon_stack(done0), cv));
                assert(stack.deep_view() == canon_stack(done1));
                assert(raw_components(path@) == done0 + (seq![cv] + raw_components(
                    path@.skip(j as int),
                )));
                assert(done0 + (seq![cv] + raw_components(path@.skip(j as int))) =~= done1
                    + raw_components(path@.skip(j as int)));
                assert(raw_components(path@) == done1 + raw_components(path@.skip(j as int)));
            }
            i = j;
        }
    }
    let ghost done_final = choose|done: Seq<Seq<char>>|
        raw_components(path@) == #[trigger] (done + raw_components(path@.skip(i as int)))
            && stack.deep_view() == canon_stack(done);
    proof {
        assert(path@.skip(i as int) =~= Seq::<char>::empty());
        assert(raw_components(Seq::<char>::empty()) == Seq::<Seq<char>>::empty());
        assert(done_final + Seq::<Seq<char>>::empty() =~= done_final);
        assert(stack.deep_view() == canon_stack(raw_components(path@)));
    }
    let mut out: Vec<char> = Vec::new();
    if rooted {
        out.push('/');
    }
    let ghost prefix = out@;
    let ghost sv = stack.deep_view();
    let mut q: usize = 0;
    proof {
        assert(sv.take(0) =~= Seq::<Seq<char>>::empty());
        assert(out@ =~= prefix + join_slash(sv.take(0)));
    }
    while q < stack.len()
        invariant
            q <= stack@.len(),
            sv == stack.deep_view(),
            sv.len() == stack@.len(),
            out@ == prefix + join_slash(sv.take(q as int)),
        decreases stack@.len() - q,
    {
        if q > 0 {
            out.push('/');
        }
        let comp = &stack[q];
        let m = comp.len();
        let mut k: usize = 0;
        let ghost before = out@;
        while k < m
            invariant
                k <= m,
                m == stack@[q as int]@.len(),
                comp == &stack@[q as int],
                q < stack@.len(),
                out@ == before + stack@[q as int]@.take(k as int),
            decreases m - k,
        {
            out.push(comp[k]);
            k = k + 1;
            proof {
                assert(out@ =~= before + stack@[q as int]@.take(k as int));
            }
        }
        proof {
            assert(stack@[q as int]@.take(m as int) =~= stack@[q as int]@);
            assert(sv[q as int] == stack@[q as int]@);
            assert(sv.take(q as int + 1).drop_last() =~= sv.take(q as int));
            assert(sv.take(q as int + 1).last() == sv[q as int]);
            if q == 0 {
                assert(join_slash(sv.take(1)) == sv[0]);
                assert(out@ =~= prefix + join_slash(sv.take(1)));
            } else {
                assert(join_slash(sv.take(q as int + 1)) == join_slash(sv.take(q as int))
                    + seq!['/'] + sv[q as int]);
                assert(out@ =~= prefix + join_slash(sv.take(q as int + 1)));
            }
        }
        q = q + 1;
    }
    proof {
        assert(sv.take(sv.len() as int) =~= sv);
    }
    string_from_chars(&out)
}

/// The decimal digits of a number, most significant first.
pub open spec fn dec_digits(n: nat) -> Seq<char>
    decreases n,
{
    if n < 10 {
        seq![digit_char(n)]
    } else {
        dec_digits(n / 10).push(digit_char(n % 10))
    }
}

/// The digit character for a value below ten.
pub open spec fn digit_char(d: nat) -> char {
    ((0x30 + d) as u32) as char
}

/// Renders a 16-bit value in decimal.
pub fn u16_dec_chars(x: u16) -> (r: Vec<char>)
    ensures
        r@ == dec_digits(x as nat),
{
    let mut low: Vec<char> = Vec::new();
    let mut v = x;
    while v >= 10
        invariant
            dec_digits(x as nat) == dec_digits(v as nat) + low@.reverse(),
        decreases v,
    {
        let d = (0x30 + (v % 10) as u8) as char;
        proof {
            assert(d == digit_char((v % 10) as nat));
            assert(dec_digits(v as nat) == dec_digits((v / 10) as nat).push(
                digit_char((v % 10) as nat),
            ));
            assert(low@.push(d).reverse() =~= seq![d] + low@.reverse());
            assert(dec_digits((v / 10) as nat) + low@.push(d).reverse() =~= dec_digits(
                (v / 10) as nat,
            ).push(d) + low@.reverse());
        }
        low.push(d);
        v = v / 10;
    }
    let d = (0x30 + v as u8) as char;
    proof {
        assert(d == digit_char(v as nat));
        assert(dec_digits(v as nat) == seq![d]);
    }
    let mut r: Vec<char> = Vec::new();
    r.push(d);
    let mut k = low.len();
    proof {
        assert(r@ =~= seq![d] + low@.reverse().take(0));
    }
    while k > 0
        invariant
            k <= low@.len(),
            r@ == seq![d] + low@.reverse().take(low@.len() - k),
        decreases k,
    {
        k = k - 1;
        r.push(low[k]);
        proof {
            assert(low@.reverse()[low@.len() - k - 1] == low@[k as int]);
            assert(low@.reverse().take(low@.len() - k) =~= low@.reverse().take(
                low@.len() - k - 1,
            ).push(low@[k as int]));
        }
    }
    proof {
        assert(low@.reverse().take(low@.len() as int) =~= low@.reverse());
        assert(r@ =~= dec_digits(x as nat));
    }
    r
}

/// The inputs with a given path hash, in input order.
pub open spec fn files_with_hash(files: Seq<Seq<char>>, h: u16) -> Seq<Seq<char>>
    decreases files.len(),
{
    if files.len() == 0 {
        Seq::empty()
    } else {
        let rest = files_with_hash(files.drop_last(), h);
        if path_hash_of(files.last()) == h {
            rest + seq![files.last()]
        } else {
            rest
        }
    }
}

impl Context {
    /// Builds the context from the canonicalized walk of the input root.
    /// The caller enumerates the input files; the folders are canonicalized
    /// here.
    pub fn new(input_folder: String, tmp: String, input_files: Vec<String>) -> (r: Context)
        ensures
            r.input_folder_view() == canon_of(input_folder@),
            r.tmp_view() == canon_of(tmp@),
            r.input_files_view() == input_files.deep_view(),
    {
        let input_folder = canonicalize_path(input_folder.as_str());
        let tmp = canonicalize_path(tmp.as_str());
        Context { input_folder, tmp, input_files }
    }

    pub closed spec fn tmp_view(self) -> Seq<char> {
        self.tmp@
    }

    pub closed spec fn input_folder_view(self) -> Seq<char> {
        self.input_folder@
    }

    pub closed spec fn input_files_view(self) -> Seq<Seq<char>> {
        self.input_files.deep_view()
    }

    /// The 16-bit path hash of a canonicalized input path.
    pub fn hash_path(path: &String) -> (r: u16)
        ensures
            r == path_hash_of(path@),
    {
        hash_path(path.as_str())
    }

    /// Re-canonicalizes a path string.
    pub fn canonicalize(path: &String) -> (r: String)
        ensures
            r@ == canon_of(path@),
    {
        canonicalize_path(path.as_str())
    }

    pub fn input_files(&self) -> (r: &Vec<String>)
        ensures
            r.deep_view() == self.input_files_view(),
    {
        &self.input_files
    }

    pub fn input_folder(&self) -> (r: &String)
        ensures
            r@ == self.input_folder_view(),
    {
        &self.input_folder
    }

    /// The inputs whose 16-bit path hash equals `hash`, in input order.
    pub fn hash_to_input_files(&self, hash: u16) -> (r: Vec<String>)
        ensures
            r.deep_view() == files_with_hash(self.input_files_view(), hash),
    {
        let ghost fv = self.input_files.deep_view();
        let mut r: Vec<String> = Vec::new();
        let mut i: usize = 0;
        proof {
            assert(fv.take(0) =~= Seq::<Seq<char>>::empty());
            assert(r.deep_view() =~= Seq::<Seq<char>>::empty());
        }
        while i < self.input_files.len()
            invariant
                i <= self.input_files@.len(),
                fv == self.input_files.deep_view(),
                fv.len() == self.input_files@.len(),
                r.deep_view() =~= files_with_hash(fv.take(i as int), hash),
            decreases self.input_files@.len() - i,
        {
            proof {
                assert(fv[i as int] == self.input_files@[i as int]@);
                assert(fv.take(i as int + 1).drop_last() =~= fv.take(i as int));
                assert(fv.take(i as int + 1).last() == fv[i as int]);
            }
            let ghost old_r = r.deep_view();
            if hash_path(self.input_files[i].as_str()) == hash {
                let s = String::clone(&self.input_files[i]);
                r.push(s);
                proof {
                    assert(r.deep_view() =~= old_r.push(fv[i as int]));
                    assert(old_r.push(fv[i as int]) =~= old_r + seq![fv[i as int]]);
                }
            }
            i = i + 1;
        }
        proof {
            assert(fv.take(fv.len() as int) =~= fv);
        }
        r
    }

    /// Where the run files and their metas live.
    pub fn raw_lsh_buckets_folder_path(&self) -> (r: String)
        ensures
            r@ == canon_of(self.tmp_view() + "/raw_lsh_buckets"@),
    {
        let mut v = str_chars(self.tmp.as_str());
        let mut suffix = str_chars("/raw_lsh_buckets");
        v.append(&mut suffix);
        let joined = string_from_chars(&v);
        proof {
            assert(joined@ =~= self.tmp@ + "/raw_lsh_buckets"@);
        }
        canonicalize_path(joined.as_str())
    }

    /// Where the duplicates groups are written.
    pub fn duplicats_groups_path(&self) -> (r: String)
        ensures
            r@ == canon_of(self.tmp_view() + "/duplicates.groups"@),
    {
        let mut v = str_chars(self.tmp.as_str());
        let mut suffix = str_chars("/duplicates.groups");
        v.append(&mut suffix);
        let joined = string_from_chars(&v);
        proof {
            assert(joined@ =~= self.tmp@ + "/duplicates.groups"@);
        }
        canonicalize_path(joined.as_str())
    }

    /// Where the filter for a path hash is written.
    pub fn filter_file_path(&self, path_hash: u16) -> (r: String)
        ensures
            r@ == canon_of(
                self.tmp_view() + "/filters/"@ + dec_digits(path_hash as nat) + ".filter"@,
            ),
    {
        let mut v = str_chars(self.tmp.as_str());
        let mut mid = str_chars("/filters/");
        v.append(&mut mid);
        let mut digits = u16_dec_chars(path_hash);
        v.append(&mut digits);
        let mut suffix = str_chars(".filter");
        v.append(&mut suffix);
        let joined = string_from_chars(&v);
        proof {
            assert(joined@ =~= self.tmp@ + "/filters/"@ + dec_digits(path_hash as nat)
                + ".filter"@);
        }
        canonicalize_path(joined.as_str())
    }
}

} // verus!
