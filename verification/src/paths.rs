//! String and path helpers: substring search, suffix tests, separator
//! replacement and joining, and the path-containment relation that the
//! executor derives its dependency edges from.

use vstd::prelude::*;

verus! {

/// `pat` occurs in `s` at position `i`.
pub open spec fn occurs_at(s: Seq<char>, pat: Seq<char>, i: int) -> bool {
    0 <= i && i + pat.len() <= s.len() && s.subrange(i, i + pat.len()) == pat
}

/// The first position at or after `from` where `pat` occurs in `s`.
pub open spec fn first_occur_from(s: Seq<char>, pat: Seq<char>, from: int) -> Option<int>
    decreases s.len() - from + 1 when from >= 0
{
    if from < 0 || from + pat.len() > s.len() {
        None
    } else if occurs_at(s, pat, from) {
        Some(from)
    } else {
        first_occur_from(s, pat, from + 1)
    }
}

/// What a found first occurrence means: the pattern occurs there, not
/// earlier, and within bounds.
pub proof fn lemma_first_occur_some(s: Seq<char>, pat: Seq<char>, from: int)
    requires
        from >= 0,
    ensures
        match first_occur_from(s, pat, from) {
            Some(i) => from <= i && occurs_at(s, pat, i),
            None => true,
        },
    decreases s.len() - from + 1,
{
    if from + pat.len() > s.len() {
    } else if occurs_at(s, pat, from) {
    } else {
        lemma_first_occur_some(s, pat, from + 1);
    }
}

/// `s` ends with `suffix`.
pub open spec fn ends_with(s: Seq<char>, suffix: Seq<char>) -> bool {
    s.len() >= suffix.len() && s.subrange(s.len() - suffix.len(), s.len() as int) == suffix
}

/// Path containment: `p` is the path `dir` itself, or lies under the
/// directory `dir` (its text is `dir` followed by `/` and more).
pub open spec fn covers(dir: Seq<char>, p: Seq<char>) -> bool {
    p == dir || (p.len() > dir.len() && p.subrange(0, dir.len() as int) == dir
        && p[dir.len() as int] == '/')
}

/// Two paths that both cover a common path are prefix-comparable.
pub proof fn lemma_covers_comparable(a: Seq<char>, b: Seq<char>, q: Seq<char>)
    requires
        covers(a, q),
        covers(b, q),
    ensures
        covers(a, b) || covers(b, a),
{
    if a == q || b == q {
    } else if a.len() == b.len() {
        assert(a =~= b);
    } else if a.len() < b.len() {
        assert(b.subrange(0, a.len() as int) =~= a);
        assert(b[a.len() as int] == q[a.len() as int]);
    } else {
        assert(a.subrange(0, b.len() as int) =~= b);
        assert(a[b.len() as int] == q[b.len() as int]);
    }
}

/// The characters of `a` starting at `ai` match the characters of `b`
/// starting at `bi`, for `len` characters.
pub fn chars_match(a: &str, ai: usize, b: &str, bi: usize, len: usize) -> (r: bool)
    requires
        ai + len <= a@.len(),
        bi + len <= b@.len(),
        ai + len <= usize::MAX,
        bi + len <= usize::MAX,
    ensures
        r == (a@.subrange(ai as int, (ai + len) as int) == b@.subrange(
            bi as int,
            (bi + len) as int,
        )),
{
    let mut j: usize = 0;
    while j < len
        invariant
            j <= len,
            ai + len <= a@.len(),
            bi + len <= b@.len(),
            ai + len <= usize::MAX,
            bi + len <= usize::MAX,
            forall|k: int| 0 <= k < j ==> a@[ai + k] == #[trigger] b@[bi + k],
        decreases len - j,
    {
        if a.get_char(ai + j) != b.get_char(bi + j) {
            assert(a@.subrange(ai as int, (ai + len) as int)[j as int] != b@.subrange(
                bi as int,
                (bi + len) as int,
            )[j as int]);
            return false;
        }
        j += 1;
    }
    proof {
        assert forall|k: int| 0 <= k < len implies #[trigger] a@.subrange(
            ai as int,
            (ai + len) as int,
        )[k] == b@.subrange(bi as int, (bi + len) as int)[k] by {
            assert(a@[ai + k] == b@[bi + k]);
        }
        assert(a@.subrange(ai as int, (ai + len) as int) =~= b@.subrange(
            bi as int,
            (bi + len) as int,
        ));
    }
    true
}

/// The two strings hold the same characters.
pub fn str_equal(a: &str, b: &str) -> (r: bool)
    ensures
        r == (a@ == b@),
{
    let al = a.unicode_len();
    let bl = b.unicode_len();
    if al != bl {
        return false;
    }
    let r = chars_match(a, 0, b, 0, al);
    if r {
        assert(a@.subrange(0, al as int) =~= a@);
        assert(b@.subrange(0, bl as int) =~= b@);
    } else {
        assert(a@ == b@ ==> a@.subrange(0, al as int) == b@.subrange(0, bl as int));
    }
    r
}

/// The first occurrence of `pat` in `s`, if any.
pub fn find_sub(s: &str, pat: &str) -> (r: Option<usize>)
    ensures
        match r {
            Some(i) => first_occur_from(s@, pat@, 0) == Some(i as int),
            None => first_occur_from(s@, pat@, 0) is None,
        },
{
    let slen = s.unicode_len();
    let plen = pat.unicode_len();
    if plen > slen {
        return None;
    }
    let bound = slen - plen;
    let mut i: usize = 0;
    while i <= bound
        invariant
            plen <= slen,
            bound == slen - plen,
            i <= bound + 1,
            s@.len() == slen,
            pat@.len() == plen,
            first_occur_from(s@, pat@, 0) == first_occur_from(s@, pat@, i as int),
        decreases bound + 1 - i,
    {
        if chars_match(s, i, pat, 0, plen) {
            assert(pat@.subrange(0, plen as int) =~= pat@);
            assert(occurs_at(s@, pat@, i as int));
            return Some(i);
        }
        proof {
            assert(pat@.subrange(0, plen as int) =~= pat@);
            assert(!occurs_at(s@, pat@, i as int));
        }
        if i == bound {
            proof {
                assert(first_occur_from(s@, pat@, bound + 1) is None);
            }
            return None;
        }
        i += 1;
    }
    None
}

/// `s` ends with the characters of `suffix`.
pub fn str_ends_with(s: &str, suffix: &str) -> (r: bool)
    ensures
        r == ends_with(s@, suffix@),
{
    let slen = s.unicode_len();
    let plen = suffix.unicode_len();
    if plen > slen {
        return false;
    }
    let r = chars_match(s, slen - plen, suffix, 0, plen);
    assert(suffix@.subrange(0, plen as int) =~= suffix@);
    r
}

/// Whether the path `p` equals `dir` or lies under the directory `dir`.
pub fn path_covers(dir: &str, p: &str) -> (r: bool)
    ensures
        r == covers(dir@, p@),
{
    let dlen = dir.unicode_len();
    let plen = p.unicode_len();
    if plen == dlen {
        str_equal(dir, p)
    } else if plen > dlen {
        if chars_match(p, 0, dir, 0, dlen) {
            assert(dir@.subrange(0, dlen as int) =~= dir@);
            p.get_char(dlen) == '/'
        } else {
            assert(dir@.subrange(0, dlen as int) =~= dir@);
            false
        }
    } else {
        false
    }
}

/// The characters of `s` with every `/` and `\` replaced by `.`.
pub open spec fn seps_to_dots(s: Seq<char>) -> Seq<char> {
    Seq::new(s.len(), |i: int| if s[i] == '/' || s[i] == '\\' { '.' } else { s[i] })
}

/// The characters of `s` with every `.` replaced by `/`.
pub open spec fn dots_to_seps(s: Seq<char>) -> Seq<char> {
    Seq::new(s.len(), |i: int| if s[i] == '.' { '/' } else { s[i] })
}

/// Replace every path separator in `s` by a dot.
pub fn replace_seps_with_dots(s: &str) -> (r: String)
    ensures
        r@ == seps_to_dots(s@),
{
    proof {
        reveal_strlit(".");
    }
    let len = s.unicode_len();
    let mut r = String::new();
    let mut i: usize = 0;
    while i < len
        invariant
            i <= len,
            s@.len() == len,
            r@ =~= seps_to_dots(s@).subrange(0, i as int),
        decreases len - i,
    {
        let c = s.get_char(i);
        let ghost prev = r@;
        if c == '/' || c == '\\' {
            r.append(".");
        } else {
            let piece = s.substring_char(i, i + 1);
            assert(piece@[0] == s@[i as int]);
            r.append(piece);
        }
        proof {
            reveal_strlit(".");
            let target = seps_to_dots(s@);
            assert(prev.len() == i);
            assert forall|k: int| 0 <= k < i + 1 implies r@[k] == target.subrange(0, i + 1)[k] by {
                assert(target.subrange(0, i + 1)[k] == target[k]);
                if k < i {
                    assert(r@[k] == prev[k]);
                    assert(prev[k] == target.subrange(0, i as int)[k]);
                } else {
                    assert(target[k] == (if s@[k] == '/' || s@[k] == '\\' {
                        '.'
                    } else {
                        s@[k]
                    }));
                }
            }
            assert(r@ =~= target.subrange(0, i + 1));
        }
        i += 1;
    }
    assert(seps_to_dots(s@).subrange(0, len as int) =~= seps_to_dots(s@));
    r
}

/// Replace every dot in `s` by a path separator.
pub fn replace_dots_with_seps(s: &str) -> (r: String)
    ensures
        r@ == dots_to_seps(s@),
{
    proof {
        reveal_strlit("/");
    }
    let len = s.unicode_len();
    let mut r = String::new();
    let mut i: usize = 0;
    while i < len
        invariant
            i <= len,
            s@.len() == len,
            r@ =~= dots_to_seps(s@).subrange(0, i as int),
        decreases len - i,
    {
        let c = s.get_char(i);
        let ghost prev = r@;
        if c == '.' {
            r.append("/");
        } else {
            let piece = s.substring_char(i, i + 1);
            assert(piece@[0] == s@[i as int]);
            r.append(piece);
        }
        proof {
            reveal_strlit("/");
            let target = dots_to_seps(s@);
            assert(prev.len() == i);
            assert forall|k: int| 0 <= k < i + 1 implies r@[k] == target.subrange(0, i + 1)[k] by {
                assert(target.subrange(0, i + 1)[k] == target[k]);
                if k < i {
                    assert(r@[k] == prev[k]);
                    assert(prev[k] == target.subrange(0, i as int)[k]);
                } else {
                    assert(target[k] == (if s@[k] == '.' {
                        '/'
                    } else {
                        s@[k]
                    }));
                }
            }
            assert(r@ =~= target.subrange(0, i + 1));
        }
        i += 1;
    }
    assert(dots_to_seps(s@).subrange(0, len as int) =~= dots_to_seps(s@));
    r
}

/// `s` with every trailing repetition of `suffix` removed.
pub open spec fn trim_suffix(s: Seq<char>, suffix: Seq<char>) -> Seq<char>
    decreases s.len() when suffix.len() > 0
{
    if suffix.len() > 0 && ends_with(s, suffix) {
        trim_suffix(s.subrange(0, s.len() - suffix.len()), suffix)
    } else {
        s
    }
}

/// Remove every trailing repetition of `.java` from `s`.
pub fn trim_java_suffix(s: &str) -> (r: &str)
    ensures
        r@ == trim_suffix(s@, ".java"@),
{
    proof {
        reveal_strlit(".java");
    }
    let mut cur: &str = s;
    while str_ends_with(cur, ".java")
        invariant
            trim_suffix(cur@, ".java"@) == trim_suffix(s@, ".java"@),
            ".java"@.len() == 5,
        decreases cur@.len(),
    {
        let clen = cur.unicode_len();
        cur = cur.substring_char(0, clen - 5);
    }
    cur
}

/// The position of the last `.` in `s`, if any.
pub open spec fn last_dot(s: Seq<char>) -> Option<int>
    decreases s.len()
{
    if s.len() == 0 {
        None
    } else if s[s.len() - 1] == '.' {
        Some(s.len() - 1)
    } else {
        last_dot(s.subrange(0, s.len() - 1))
    }
}

/// `last_dot` names a dot, and no later position holds one.
pub proof fn lemma_last_dot(s: Seq<char>)
    ensures
        match last_dot(s) {
            Some(i) => 0 <= i < s.len() && s[i] == '.' && forall|j: int|
                i < j < s.len() ==> s[j] != '.',
            None => forall|j: int| 0 <= j < s.len() ==> s[j] != '.',
        },
    decreases s.len(),
{
    if s.len() == 0 {
    } else if s[s.len() - 1] == '.' {
    } else {
        lemma_last_dot(s.subrange(0, s.len() - 1));
        assert forall|j: int| 0 <= j < s.len() - 1 implies s.subrange(0, s.len() - 1)[j] == s[j]
        by {}
    }
}

/// Find the position of the last `.` in `s`, if any.
pub fn find_last_dot(s: &str) -> (r: Option<usize>)
    ensures
        match r {
            Some(i) => last_dot(s@) == Some(i as int),
            None => last_dot(s@) is None,
        },
{
    let len = s.unicode_len();
    proof {
        assert(s@.subrange(0, len as int) =~= s@);
    }
    let mut i: usize = len;
    while i > 0
        invariant
            i <= len,
            s@.len() == len,
            last_dot(s@) == last_dot(s@.subrange(0, i as int)),
        decreases i,
    {
        i -= 1;
        if s.get_char(i) == '.' {
            proof {
                assert(s@.subrange(0, i + 1)[i as int] == '.');
            }
            return Some(i);
        }
        proof {
            assert(s@.subrange(0, i + 1).subrange(0, i as int) =~= s@.subrange(0, i as int));
        }
    }
    proof {
        assert(s@.subrange(0, 0) =~= Seq::<char>::empty());
    }
    None
}

/// The members of `parts` joined with `sep` between them.
pub open spec fn join_with(parts: Seq<Seq<char>>, sep: Seq<char>) -> Seq<char>
    decreases parts.len()
{
    if parts.len() == 0 {
        Seq::empty()
    } else if parts.len() == 1 {
        parts[0]
    } else {
        parts[0] + sep + join_with(parts.drop_first(), sep)
    }
}

/// Appending one more part joins it at the end.
pub proof fn lemma_join_push(parts: Seq<Seq<char>>, sep: Seq<char>, x: Seq<char>)
    ensures
        parts.len() == 0 ==> join_with(parts.push(x), sep) == x,
        parts.len() > 0 ==> join_with(parts.push(x), sep) == join_with(parts, sep) + sep + x,
    decreases parts.len(),
{
    if parts.len() == 0 {
        assert(parts.push(x)[0] == x);
    } else if parts.len() == 1 {
        assert(parts.push(x).drop_first() =~= seq![x]);
        assert(parts.push(x)[0] == parts[0]);
        assert(seq![x].len() == 1 && seq![x][0] == x);
        assert(join_with(seq![x], sep) == x);
        assert(join_with(parts.push(x), sep) == parts[0] + sep + x);
    } else {
        lemma_join_push(parts.drop_first(), sep, x);
        assert(parts.push(x).drop_first() =~= parts.drop_first().push(x));
        assert(join_with(parts, sep) + sep + x =~= parts[0] + sep + (join_with(
            parts.drop_first(),
            sep,
        ) + sep + x));
    }
}

/// Join the strings of `v` with the separator `sep`.
pub fn join_strings(v: &Vec<String>, sep: &str) -> (r: String)
    ensures
        r@ == join_with(v.deep_view(), sep@),
{
    let mut r = String::new();
    let mut i: usize = 0;
    while i < v.len()
        invariant
            i <= v.len(),
            r@ == join_with(v.deep_view().subrange(0, i as int), sep@),
        decreases v.len() - i,
    {
        if i > 0 {
            r.append(sep);
        }
        r.append(v[i].as_str());
        proof {
            lemma_join_push(v.deep_view().subrange(0, i as int), sep@, v@[i as int]@);
            assert(v.deep_view().subrange(0, i as int).push(v@[i as int]@) =~= v.deep_view()
                .subrange(0, i + 1));
        }
        i += 1;
    }
    proof {
        assert(v.deep_view().subrange(0, v.len() as int) =~= v.deep_view());
    }
    r
}

/// Push a string, tracking the vector's contents as character sequences.
pub fn push_string(v: &mut Vec<String>, s: String)
    ensures
        final(v).deep_view() == old(v).deep_view().push(s@),
        final(v)@.len() == old(v)@.len() + 1,
{
    let ghost pre = v@;
    let ghost sv = s@;
    let ghost sval = s;
    v.push(s);
    proof {
        let target = pre.map_values(|q: String| q@).push(sv);
        assert(old(v).deep_view() =~= pre.map_values(|q: String| q@));
        assert(v.deep_view().len() == target.len());
        assert forall|i: int| 0 <= i < target.len() implies #[trigger] v.deep_view()[i]
            == target[i] by {
            if i < pre.len() {
                assert(v@[i] == pre[i]);
            } else {
                assert(v@[i] == sval);
            }
        }
        assert(v.deep_view() =~= target);
        assert(target =~= old(v).deep_view().push(sv));
    }
}

/// Whether some member of `v` holds the characters of `s`.
pub fn vec_contains_str(v: &Vec<String>, s: &str) -> (r: bool)
    ensures
        r == v.deep_view().contains(s@),
{
    let mut i: usize = 0;
    while i < v.len()
        invariant
            i <= v.len(),
            forall|k: int| 0 <= k < i ==> v.deep_view()[k] != s@,
        decreases v.len() - i,
    {
        if str_equal(v[i].as_str(), s) {
            assert(v.deep_view()[i as int] == s@);
            return true;
        }
        i += 1;
    }
    false
}

} // verus!
