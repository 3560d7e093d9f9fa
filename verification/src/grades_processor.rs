//! Bindings for grades and student records imported from a school
//! administration export, and the processing that maps them to the format
//! the server expects.

use vstd::prelude::*;
use vstd::utf8::encode_utf8;
use crate::encoding::{b64_of, b64_decode_of};
use crate::primitives::sha256_of;

verus! {

/// Spec-level image of a grade: the views of all its fields.
#[verifier::ext_equal]
pub ghost struct GradeData {
    pub student_name: Seq<char>,
    pub school_class: Option<Seq<char>>,
    pub om_code: Seq<char>,
    pub subject_category: Seq<char>,
    pub subject: Seq<char>,
    pub group: Seq<char>,
    pub teacher: Option<Seq<char>>,
    pub theme: Seq<char>,
    pub kind: Option<Seq<char>>,
    pub text_grade: Seq<char>,
    pub grade: Option<Seq<char>>,
    pub short_text_grade: Seq<char>,
    pub behavior_grade: Seq<char>,
    pub diligence_grade: Seq<char>,
    pub create_date: Seq<char>,
    pub record_date: Seq<char>,
}

/// The view of an optional string.
pub open spec fn opt_view(o: Option<String>) -> Option<Seq<char>> {
    match o {
        Some(s) => Some(s@),
        None => None,
    }
}

/// A single grade row of an imported export.
#[derive(Debug, Clone)]
pub struct BackboardGrade {
    pub student_name: String,
    pub school_class: Option<String>,
    pub om_code: String,
    pub subject_category: String,
    pub subject: String,
    pub group: String,
    pub teacher: Option<String>,
    pub theme: String,
    pub kind: Option<String>,
    pub text_grade: String,
    pub grade: Option<String>,
    pub short_text_grade: String,
    pub behavior_grade: String,
    pub diligence_grade: String,
    pub create_date: String,
    pub record_date: String,
}

impl BackboardGrade {
    /// Returns the hashed `om_code`, then replaces it with an empty string,
    /// so that the raw identifying code is not retained once pseudonymized.
    pub fn hashed_om_code(&mut self) -> (r: String)
        ensures
            r@ == b64_of(sha256_of(encode_utf8(old(self).om_code@))),
            b64_decode_of(r@) == Some(sha256_of(encode_utf8(old(self).om_code@))),
            final(self).om_code@ == Seq::<char>::empty(),
            final(self).student_name == old(self).student_name,
            final(self).school_class == old(self).school_class,
            final(self).subject_category == old(self).subject_category,
            final(self).subject == old(self).subject,
            final(self).group == old(self).group,
            final(self).teacher == old(self).teacher,
            final(self).theme == old(self).theme,
            final(self).kind == old(self).kind,
            final(self).text_grade == old(self).text_grade,
            final(self).grade == old(self).grade,
            final(self).short_text_grade == old(self).short_text_grade,
            final(self).behavior_grade == old(self).behavior_grade,
            final(self).diligence_grade == old(self).diligence_grade,
            final(self).create_date == old(self).create_date,
            final(self).record_date == old(self).record_date,
    {
        let code = self.om_code.clone();
        self.om_code = String::new();
        crate::cryptography::hash(code.as_str())
    }
}

impl BackboardGrade {
    /// The spec-level image of this grade.
    pub open spec fn data(self) -> GradeData {
        GradeData {
            student_name: self.student_name@,
            school_class: opt_view(self.school_class),
            om_code: self.om_code@,
            subject_category: self.subject_category@,
            subject: self.subject@,
            group: self.group@,
            teacher: opt_view(self.teacher),
            theme: self.theme@,
            kind: opt_view(self.kind),
            text_grade: self.text_grade@,
            grade: opt_view(self.grade),
            short_text_grade: self.short_text_grade@,
            behavior_grade: self.behavior_grade@,
            diligence_grade: self.diligence_grade@,
            create_date: self.create_date@,
            record_date: self.record_date@,
        }
    }
}

/// The pseudonymous key a grade is filed under: the digest of its raw
/// identifying code.
pub open spec fn grade_key(d: GradeData) -> Seq<char> {
    b64_of(sha256_of(encode_utf8(d.om_code)))
}

/// `d` with its identifying code removed, as [`BackboardGrade::hashed_om_code`]
/// leaves a grade.
pub open spec fn cleared(d: GradeData) -> GradeData {
    GradeData { om_code: Seq::<char>::empty(), ..d }
}

/// Index of the first entry filed under `k`, or `-1` where none is.
pub open spec fn find_key<V>(acc: Seq<(Seq<char>, V)>, k: Seq<char>) -> int
    decreases acc.len(),
{
    if acc.len() == 0 {
        -1
    } else if acc[0].0 == k {
        0
    } else {
        let rest = find_key(acc.drop_first(), k);
        if rest < 0 {
            -1
        } else {
            rest + 1
        }
    }
}

/// `find_key` finds the first entry with the key, if any.
pub proof fn lemma_find_key<V>(acc: Seq<(Seq<char>, V)>, k: Seq<char>)
    ensures
        find_key(acc, k) == -1 <==> (forall|j: int| 0 <= j < acc.len() ==> (#[trigger] acc[j]).0
            != k),
        find_key(acc, k) >= 0 ==> {
            &&& find_key(acc, k) < acc.len()
            &&& acc[find_key(acc, k)].0 == k
            &&& forall|j: int| 0 <= j < find_key(acc, k) ==> (#[trigger] acc[j]).0 != k
        },
    decreases acc.len(),
{
    if acc.len() == 0 {
    } else if acc[0].0 == k {
    } else {
        lemma_find_key(acc.drop_first(), k);
        assert(forall|j: int|
            1 <= j < acc.len() ==> (#[trigger] acc[j]) == acc.drop_first()[j - 1]);
    }
}

/// An entry at `i` with key `k` and no earlier entry under `k` is the first.
pub proof fn lemma_find_key_at<V>(acc: Seq<(Seq<char>, V)>, k: Seq<char>, i: int)
    requires
        0 <= i < acc.len(),
        acc[i].0 == k,
        forall|j: int| 0 <= j < i ==> (#[trigger] acc[j]).0 != k,
    ensures
        find_key(acc, k) == i,
{
    lemma_find_key(acc, k);
}

/// Files grade image `d` under key `k`: appended to the existing entry for
/// `k`, or opening a new entry at the end.
pub open spec fn grades_upsert(
    acc: Seq<(Seq<char>, Seq<GradeData>)>,
    k: Seq<char>,
    d: GradeData,
) -> Seq<(Seq<char>, Seq<GradeData>)> {
    let j = find_key(acc, k);
    if j < 0 {
        acc.push((k, seq![d]))
    } else {
        acc.update(j, (k, acc[j].1.push(d)))
    }
}

/// The grouping of a sequence of grades: each grade, its identifying code
/// cleared, filed in input order under the digest of that code.
pub open spec fn grades_grouped(gs: Seq<GradeData>) -> Seq<(Seq<char>, Seq<GradeData>)>
    decreases gs.len(),
{
    if gs.len() == 0 {
        Seq::<(Seq<char>, Seq<GradeData>)>::empty()
    } else {
        grades_upsert(grades_grouped(gs.drop_last()), grade_key(gs.last()), cleared(gs.last()))
    }
}

/// No two entries of the keyed sequence share a key.
pub open spec fn distinct_keys<V>(acc: Seq<(Seq<char>, V)>) -> bool {
    forall|j1: int, j2: int|
        0 <= j1 < j2 < acc.len() ==> (#[trigger] acc[j1]).0 != (#[trigger] acc[j2]).0
}

/// Some entry of the keyed sequence is filed under `k`.
pub open spec fn has_key<V>(acc: Seq<(Seq<char>, V)>, k: Seq<char>) -> bool {
    find_key(acc, k) >= 0
}

/// Filing a grade keeps the keys distinct, files the new key, and loses no
/// key that was already filed.
proof fn lemma_grades_upsert_props(acc: Seq<(Seq<char>, Seq<GradeData>)>, k: Seq<char>, d: GradeData)
    requires
        distinct_keys(acc),
    ensures
        distinct_keys(grades_upsert(acc, k, d)),
        has_key(grades_upsert(acc, k, d), k),
        forall|k2: Seq<char>| has_key(acc, k2) ==> #[trigger] has_key(grades_upsert(acc, k, d), k2),
{
    lemma_find_key(acc, k);
    let j = find_key(acc, k);
    let out = grades_upsert(acc, k, d);
    if j < 0 {
        assert forall|j2: int| 0 <= j2 < out.len() - 1 implies (#[trigger] out[j2]).0 != k by {
            assert(out[j2].0 == acc[j2].0);
        }
        lemma_find_key_at(out, k, acc.len() as int);
    } else {
        assert forall|m: int| 0 <= m < out.len() implies (#[trigger] out[m]).0 == acc[m].0 by {}
        lemma_find_key_at(out, k, j);
    }
    assert forall|k2: Seq<char>| has_key(acc, k2) implies #[trigger] has_key(out, k2) by {
        lemma_find_key(acc, k2);
        let i = find_key(acc, k2);
        assert(out[i].0 == k2);
        lemma_find_key(out, k2);
    }
}

/// Law: the grouping never files two entries under the same key.
pub proof fn lemma_grades_grouped_distinct(gs: Seq<GradeData>)
    ensures
        distinct_keys(grades_grouped(gs)),
    decreases gs.len(),
{
    if gs.len() > 0 {
        lemma_grades_grouped_distinct(gs.drop_last());
        lemma_grades_upsert_props(
            grades_grouped(gs.drop_last()),
            grade_key(gs.last()),
            cleared(gs.last()),
        );
    }
}

/// Law: every grade's key is filed — no grade is dropped by the grouping.
pub proof fn lemma_grades_grouped_complete(gs: Seq<GradeData>)
    ensures
        forall|i: int|
            0 <= i < gs.len() ==> has_key(grades_grouped(gs), grade_key(#[trigger] gs[i])),
    decreases gs.len(),
{
    if gs.len() > 0 {
        lemma_grades_grouped_complete(gs.drop_last());
        lemma_grades_grouped_distinct(gs.drop_last());
        lemma_grades_upsert_props(
            grades_grouped(gs.drop_last()),
            grade_key(gs.last()),
            cleared(gs.last()),
        );
        assert forall|i: int| 0 <= i < gs.len() implies has_key(
            grades_grouped(gs),
            grade_key(#[trigger] gs[i]),
        ) by {
            if i < gs.len() - 1 {
                assert(gs.drop_last()[i] == gs[i]);
                assert(has_key(grades_grouped(gs.drop_last()), grade_key(gs[i])));
            }
        }
    }
}

/// The spec-level image of a built grouping.
pub open spec fn groups_view(rv: Seq<(String, Vec<BackboardGrade>)>) -> Seq<
    (Seq<char>, Seq<GradeData>),
> {
    rv.map_values(
        |e: (String, Vec<BackboardGrade>)|
            (e.0@, e.1@.map_values(|g: BackboardGrade| g.data())),
    )
}

/// Groups imported grades by the digest of their identifying code, exactly
/// as [`grades_grouped`] describes: every grade keeps its input order within
/// its group, each raw code is replaced by the empty string once hashed, and
/// no two entries share a key.
pub fn group_grades_by_hashed_code(grades: Vec<BackboardGrade>) -> (r: Vec<
    (String, Vec<BackboardGrade>),
>)
    ensures
        groups_view(r@) == grades_grouped(grades@.map_values(|g: BackboardGrade| g.data())),
{
    let ghost dat = grades@.map_values(|g: BackboardGrade| g.data());
    let mut rest = grades;
    let mut result: Vec<(String, Vec<BackboardGrade>)> = Vec::new();
    let mut i: usize = 0;
    let initial_len = rest.len();
    proof {
        assert(dat.len() == initial_len);
        assert(groups_view(result@) =~~= grades_grouped(dat.take(0)));
    }
    while rest.len() > 0
        invariant
            i + rest@.len() == dat.len(),
            dat.len() <= usize::MAX,
            forall|j: int| 0 <= j < rest@.len() ==> (#[trigger] rest@[j]).data() == dat[i + j],
            groups_view(result@) == grades_grouped(dat.take(i as int)),
        decreases rest@.len(),
    {
        let mut g = rest.remove(0);
        let ghost d_orig = dat[i as int];
        let key = g.hashed_om_code();
        proof {
            assert(g.data() =~= cleared(d_orig));
            assert(key@ == grade_key(d_orig));
        }
        let ghost old_view = groups_view(result@);
        match find_entry(&result, &key) {
            Some(j) => {
                proof {
                    assert(groups_view(result@)[j as int].0 == key@);
                    assert forall|m: int| 0 <= m < j implies (#[trigger] groups_view(result@)[m]).0
                        != key@ by {
                        assert(groups_view(result@)[m].0 == result@[m].0@);
                    }
                    lemma_find_key_at(groups_view(result@), key@, j as int);
                }
                let mut entry = result.remove(j);
                entry.1.push(g);
                result.insert(j, entry);
                proof {
                    assert(groups_view(result@) =~~= grades_upsert(old_view, key@, cleared(
                        d_orig,
                    )));
                }
            },
            None => {
                proof {
                    assert forall|m: int| 0 <= m < old_view.len() implies (#[trigger]
                    old_view[m]).0 != key@ by {
                        assert(old_view[m].0 == result@[m].0@);
                    }
                    lemma_find_key(old_view, key@);
                }
                let mut bucket: Vec<BackboardGrade> = Vec::new();
                bucket.push(g);
                result.push((key, bucket));
                proof {
                    assert(groups_view(result@) =~~= grades_upsert(old_view, key@, cleared(
                        d_orig,
                    )));
                }
            },
        }
        i += 1;
        proof {
            assert(dat.take(i as int).drop_last() =~= dat.take(i as int - 1));
            assert(dat.take(i as int).last() == dat[i as int - 1]);
        }
    }
    proof {
        assert(dat.take(dat.len() as int) =~= dat);
    }
    result
}

/// Index of the first grouping entry filed under `key`, if any.
fn find_entry<V>(result: &Vec<(String, V)>, key: &String) -> (r: Option<usize>)
    ensures
        match r {
            Some(j) => {
                &&& j < result@.len()
                &&& result@[j as int].0@ == key@
                &&& forall|m: int| 0 <= m < j ==> (#[trigger] result@[m]).0@ != key@
            },
            None => forall|m: int| 0 <= m < result@.len() ==> (#[trigger] result@[m]).0@ != key@,
        },
{
    let n = result.len();
    let mut j: usize = 0;
    while j < n
        invariant
            n == result@.len(),
            j <= n,
            forall|m: int| 0 <= m < j ==> (#[trigger] result@[m]).0@ != key@,
        decreases n - j,
    {
        if result[j].0.eq(key) {
            return Some(j);
        }
        j += 1;
    }
    None
}

/// Spec-level image of a student: the views of its fields.
#[verifier::ext_equal]
pub ghost struct StudentData {
    pub name: Seq<char>,
    pub om_code: Seq<char>,
    pub class: Seq<char>,
}

/// The pseudonymous key a student is filed under: the digest of their raw
/// identifying code.
pub open spec fn student_key(d: StudentData) -> Seq<char> {
    b64_of(sha256_of(encode_utf8(d.om_code)))
}

/// `d` with its identifying code removed, as
/// [`BackboardStudent::hashed_om_code`] leaves a student.
pub open spec fn student_cleared(d: StudentData) -> StudentData {
    StudentData { om_code: Seq::<char>::empty(), ..d }
}

/// Files student image `d` under key `k`: replacing an existing entry for
/// `k`, or opening a new entry at the end, as a map insertion does.
pub open spec fn students_upsert(
    acc: Seq<(Seq<char>, StudentData)>,
    k: Seq<char>,
    d: StudentData,
) -> Seq<(Seq<char>, StudentData)> {
    let j = find_key(acc, k);
    if j < 0 {
        acc.push((k, d))
    } else {
        acc.update(j, (k, d))
    }
}

/// The indexing of a sequence of students: each student, their identifying
/// code cleared, filed under the digest of that code; a later row with the
/// same code replaces an earlier one.
pub open spec fn students_indexed(ss: Seq<StudentData>) -> Seq<(Seq<char>, StudentData)>
    decreases ss.len(),
{
    if ss.len() == 0 {
        Seq::<(Seq<char>, StudentData)>::empty()
    } else {
        students_upsert(
            students_indexed(ss.drop_last()),
            student_key(ss.last()),
            student_cleared(ss.last()),
        )
    }
}

/// Filing a student keeps the keys distinct, files the new key, and loses
/// no key that was already filed.
proof fn lemma_students_upsert_props(acc: Seq<(Seq<char>, StudentData)>, k: Seq<char>, d: StudentData)
    requires
        distinct_keys(acc),
    ensures
        distinct_keys(students_upsert(acc, k, d)),
        has_key(students_upsert(acc, k, d), k),
        forall|k2: Seq<char>|
            has_key(acc, k2) ==> #[trigger] has_key(students_upsert(acc, k, d), k2),
{
    lemma_find_key(acc, k);
    let j = find_key(acc, k);
    let out = students_upsert(acc, k, d);
    if j < 0 {
        assert forall|j2: int| 0 <= j2 < out.len() - 1 implies (#[trigger] out[j2]).0 != k by {
            assert(out[j2].0 == acc[j2].0);
        }
        lemma_find_key_at(out, k, acc.len() as int);
    } else {
        assert forall|m: int| 0 <= m < out.len() implies (#[trigger] out[m]).0 == acc[m].0 by {}
        lemma_find_key_at(out, k, j);
    }
    assert forall|k2: Seq<char>| has_key(acc, k2) implies #[trigger] has_key(out, k2) by {
        lemma_find_key(acc, k2);
        let i = find_key(acc, k2);
        assert(out[i].0 == k2);
        lemma_find_key(out, k2);
    }
}

/// Law: the student index never files two entries under the same key.
pub proof fn lemma_students_indexed_distinct(ss: Seq<StudentData>)
    ensures
        distinct_keys(students_indexed(ss)),
    decreases ss.len(),
{
    if ss.len() > 0 {
        lemma_students_indexed_distinct(ss.drop_last());
        lemma_students_upsert_props(
            students_indexed(ss.drop_last()),
            student_key(ss.last()),
            student_cleared(ss.last()),
        );
    }
}

/// Law: every student's key is filed — no student is dropped by the index.
pub proof fn lemma_students_indexed_complete(ss: Seq<StudentData>)
    ensures
        forall|i: int|
            0 <= i < ss.len() ==> has_key(students_indexed(ss), student_key(#[trigger] ss[i])),
    decreases ss.len(),
{
    if ss.len() > 0 {
        lemma_students_indexed_complete(ss.drop_last());
        lemma_students_indexed_distinct(ss.drop_last());
        lemma_students_upsert_props(
            students_indexed(ss.drop_last()),
            student_key(ss.last()),
            student_cleared(ss.last()),
        );
        assert forall|i: int| 0 <= i < ss.len() implies has_key(
            students_indexed(ss),
            student_key(#[trigger] ss[i]),
        ) by {
            if i < ss.len() - 1 {
                assert(ss.drop_last()[i] == ss[i]);
                assert(has_key(students_indexed(ss.drop_last()), student_key(ss[i])));
            }
        }
    }
}

/// The spec-level image of a built student index.
pub open spec fn students_view(rv: Seq<(String, BackboardStudent)>) -> Seq<
    (Seq<char>, StudentData),
> {
    rv.map_values(|e: (String, BackboardStudent)| (e.0@, e.1.data()))
}

/// Indexes imported students by the digest of their identifying code,
/// exactly as [`students_indexed`] describes: each raw code is replaced by
/// the empty string once hashed, no two entries share a key, and a later
/// row with the same code replaces an earlier one.
pub fn index_students_by_hashed_code(students: Vec<BackboardStudent>) -> (r: Vec<
    (String, BackboardStudent),
>)
    ensures
        students_view(r@) == students_indexed(
            students@.map_values(|s: BackboardStudent| s.data()),
        ),
{
    let ghost dat = students@.map_values(|s: BackboardStudent| s.data());
    let mut rest = students;
    let mut result: Vec<(String, BackboardStudent)> = Vec::new();
    let mut i: usize = 0;
    let initial_len = rest.len();
    proof {
        assert(dat.len() == initial_len);
        assert(students_view(result@) =~~= students_indexed(dat.take(0)));
    }
    while rest.len() > 0
        invariant
            i + rest@.len() == dat.len(),
            dat.len() <= usize::MAX,
            forall|j: int| 0 <= j < rest@.len() ==> (#[trigger] rest@[j]).data() == dat[i + j],
            students_view(result@) == students_indexed(dat.take(i as int)),
        decreases rest@.len(),
    {
        let mut s = rest.remove(0);
        let ghost d_orig = dat[i as int];
        let key = s.hashed_om_code();
        proof {
            assert(s.data() =~= student_cleared(d_orig));
            assert(key@ == student_key(d_orig));
        }
        let ghost old_view = students_view(result@);
        match find_entry(&result, &key) {
            Some(j) => {
                proof {
                    assert(students_view(result@)[j as int].0 == key@);
                    assert forall|m: int| 0 <= m < j implies (#[trigger] students_view(
                        result@,
                    )[m]).0 != key@ by {
                        assert(students_view(result@)[m].0 == result@[m].0@);
                    }
                    lemma_find_key_at(students_view(result@), key@, j as int);
                }
                let _ = result.remove(j);
                result.insert(j, (key, s));
                proof {
                    assert(students_view(result@) =~~= students_upsert(old_view, key@,
                    student_cleared(d_orig)));
                }
            },
            None => {
                proof {
                    assert forall|m: int| 0 <= m < old_view.len() implies (#[trigger]
                    old_view[m]).0 != key@ by {
                        assert(old_view[m].0 == result@[m].0@);
                    }
                    lemma_find_key(old_view, key@);
                }
                result.push((key, s));
                proof {
                    assert(students_view(result@) =~~= students_upsert(old_view, key@,
                    student_cleared(d_orig)));
                }
            },
        }
        i += 1;
        proof {
            assert(dat.take(i as int).drop_last() =~= dat.take(i as int - 1));
            assert(dat.take(i as int).last() == dat[i as int - 1]);
        }
    }
    proof {
        assert(dat.take(dat.len() as int) =~= dat);
    }
    result
}

/// A single student row of an imported export.
#[derive(Debug, Clone)]
pub struct BackboardStudent {
    pub name: String,
    pub om_code: String,
    pub class: String,
}

impl BackboardStudent {
    /// The spec-level image of this student.
    pub open spec fn data(self) -> StudentData {
        StudentData { name: self.name@, om_code: self.om_code@, class: self.class@ }
    }

    /// Returns the hashed `om_code`, then replaces it with an empty string,
    /// so that the raw identifying code is not retained once pseudonymized.
    pub fn hashed_om_code(&mut self) -> (r: String)
        ensures
            r@ == b64_of(sha256_of(encode_utf8(old(self).om_code@))),
            b64_decode_of(r@) == Some(sha256_of(encode_utf8(old(self).om_code@))),
            final(self).om_code@ == Seq::<char>::empty(),
            final(self).name == old(self).name,
            final(self).class == old(self).class,
    {
        let code = self.om_code.clone();
        self.om_code = String::new();
        crate::cryptography::hash(code.as_str())
    }
}

/// Data of a registered user as the server reports it; further grades are
/// attached to this account.
#[derive(Debug, Clone)]
pub struct BackboardUser {
    pub id: String,
    pub public_key: String,
    pub om_code_hashed: String,
}

/// All relevant information about one student, packed to be encrypted and
/// sent to the server.
#[derive(Debug, Clone)]
pub struct GradeCollection {
    pub grades: Vec<BackboardGrade>,
    pub school_class: Option<String>,
    pub student_name: String,
    pub user: BackboardUser,
}

/// The first school class named by any grade of the sequence, if one is.
pub open spec fn first_class(gs: Seq<GradeData>) -> Option<Seq<char>>
    decreases gs.len(),
{
    if gs.len() == 0 {
        None::<Seq<char>>
    } else if gs[0].school_class is Some {
        gs[0].school_class
    } else {
        first_class(gs.drop_first())
    }
}

/// A prefix of grades without a school class does not change which class is
/// found first.
proof fn lemma_first_class_skip(gs: Seq<GradeData>, i: int)
    requires
        0 <= i <= gs.len(),
        forall|j: int| 0 <= j < i ==> (#[trigger] gs[j]).school_class is None,
    ensures
        first_class(gs.skip(i)) == first_class(gs),
    decreases i,
{
    if i > 0 {
        lemma_first_class_skip(gs, i - 1);
        assert(gs.skip(i - 1).drop_first() =~= gs.skip(i));
        assert(gs.skip(i - 1)[0] == gs[i - 1]);
    } else {
        assert(gs.skip(0) =~= gs);
    }
}

/// Packs a user's imported grades with their name and school class.
///
/// The name and class come from the student index where the student is
/// found there; otherwise the name falls back to the first grade's, and the
/// class to the first one any grade names.
pub fn build_grade_collection(
    grades: Vec<BackboardGrade>,
    student: Option<BackboardStudent>,
    user: BackboardUser,
) -> (r: GradeCollection)
    requires
        grades@.len() > 0,
    ensures
        r.grades == grades,
        r.user == user,
        student is Some ==> opt_view(r.school_class) == Some(student.unwrap().class@)
            && r.student_name@ == student.unwrap().name@,
        student is None ==> opt_view(r.school_class) == first_class(
            grades@.map_values(|g: BackboardGrade| g.data()),
        ) && r.student_name@ == grades@[0].student_name@,
{
    let (school_class, student_name) = match student {
        Some(info) => (Some(info.class), info.name),
        None => {
            let cls = find_first_class(&grades);
            (cls, grades[0].student_name.clone())
        },
    };
    GradeCollection { grades, school_class, student_name, user }
}

/// The first school class any of the grades names, if one does.
fn find_first_class(grades: &Vec<BackboardGrade>) -> (r: Option<String>)
    ensures
        opt_view(r) == first_class(grades@.map_values(|g: BackboardGrade| g.data())),
{
    let ghost dat = grades@.map_values(|g: BackboardGrade| g.data());
    let n = grades.len();
    let mut k: usize = 0;
    while k < n
        invariant
            n == grades@.len(),
            k <= n,
            dat == grades@.map_values(|g: BackboardGrade| g.data()),
            forall|j: int| 0 <= j < k ==> (#[trigger] dat[j]).school_class is None,
        decreases n - k,
    {
        match &grades[k].school_class {
            Some(c) => {
                let found = c.clone();
                proof {
                    lemma_first_class_skip(dat, k as int);
                    assert(dat.skip(k as int)[0] == dat[k as int]);
                    assert(first_class(dat) == dat[k as int].school_class);
                }
                return Some(found);
            },
            None => {
                proof {
                    assert(dat[k as int].school_class is None);
                }
            },
        }
        k += 1;
    }
    proof {
        lemma_first_class_skip(dat, dat.len() as int);
        assert(dat.skip(dat.len() as int) =~= Seq::<GradeData>::empty());
    }
    None
}

} // verus!
