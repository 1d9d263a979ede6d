//! What the expansion yields once it is driven to completion.
//!
//! The expansion is code, and what it does is decided where it runs. This
//! module states it as a model over values: the join hands back what the
//! futures yield, place by place; the pattern binds each to the name at its
//! place; the struct's initializers then read a future's field from the
//! variable of its name, and any other field from its own expression.
//! Where failures are passed on, the join ends with the failure that it
//! meets first, which is that of the future that fails before the others do.
use crate::executor::{
    future_rank, lemma_place_has_field, lemma_place_has_plain_field, lemma_rank, lemma_sort_push,
    lemma_sorted_lengths, normal, plain_rank, resolvable, BindingView,
};
use crate::queue::{reversed, take_next};
use crate::types::{field_views, DescriptorView, FieldView, FuturedField, OutputStructAbstraction};
use vstd::prelude::*;

verus! {

/// A struct that was built: its name, and each field's name and value, in the
/// order of the initializers.
pub struct RecordView<T> {
    pub name: Seq<char>,
    pub fields: Seq<(Seq<char>, T)>,
}

/// No two fields have the same name.
pub open spec fn distinct_names(fields: Seq<FieldView>) -> bool {
    forall|i: int, j: int|
        0 <= i < j < fields.len() ==> fields[i].name.text != fields[j].name.text
}

/// The place of the join's pattern that binds the variable `name`.
pub open spec fn binding_place(bound: Seq<BindingView>, name: Seq<char>) -> int {
    choose|j: int| 0 <= j < bound.len() && bound[j].name.text == name
}

/// The value that the initializer of the `k`th field gives it, where the join
/// handed back `resolved` and the other fields' expressions have the values
/// `given`: a future's field reads the variable of its name, another field has
/// the value of its own expression.
pub open spec fn initial_value<T>(fields: Seq<FieldView>, k: int, resolved: Seq<T>, given: Seq<T>)
    -> T {
    if fields[k].is_future() {
        resolved[binding_place(resolvable(fields), fields[k].name.text)]
    } else {
        given[plain_rank(fields, k)]
    }
}

/// The struct that the expansion builds.
pub open spec fn built<T>(descriptor: DescriptorView, resolved: Seq<T>, given: Seq<T>)
    -> RecordView<T> {
    RecordView {
        name: descriptor.struct_name.text,
        fields: Seq::new(
            descriptor.fields.len(),
            |k: int|
                (
                    descriptor.fields[k].name.text,
                    initial_value(descriptor.fields, k, resolved, given),
                ),
        ),
    }
}

/// The expansion exists, is accepted where it stands, and gets a value for
/// each field: there is a future, no name occurs twice, `resolved` values
/// come from the futures and `given` values from the other fields.
pub open spec fn completes(descriptor: DescriptorView, resolved: nat, given: nat) -> bool {
    &&& resolvable(descriptor.fields).len() > 0
    &&& distinct_names(descriptor.fields)
    &&& resolved == resolvable(descriptor.fields).len()
    &&& given == normal(descriptor.fields).len()
}

/// Some future fails.
pub open spec fn any_failure<T, E>(yielded: Seq<Result<T, E>>) -> bool {
    exists|j: int| 0 <= j < yielded.len() && yielded[j] is Err
}

/// The `j`th future of the join fails, and fails before every other future
/// that fails: `finished` holds the moment at which each future is done.
pub open spec fn fails_first<T, E>(yielded: Seq<Result<T, E>>, finished: Seq<u64>, j: int)
    -> bool {
    &&& 0 <= j < yielded.len()
    &&& yielded[j] is Err
    &&& forall|i: int|
        0 <= i < yielded.len() && i != j && yielded[i] is Err ==> finished[j] < finished[i]
}

/// There is a moment for each future, and where futures fail, one of them
/// fails before the others.
pub open spec fn observable<T, E>(yielded: Seq<Result<T, E>>, finished: Seq<u64>) -> bool {
    &&& finished.len() == yielded.len()
    &&& any_failure(yielded) ==> exists|j: int| fails_first(yielded, finished, j)
}

/// The place of the future that fails first.
pub open spec fn first_failure<T, E>(yielded: Seq<Result<T, E>>, finished: Seq<u64>) -> int {
    choose|j: int| fails_first(yielded, finished, j)
}

/// What the futures yield, where none fails.
pub open spec fn successes<T, E>(yielded: Seq<Result<T, E>>) -> Seq<T> {
    yielded.map_values(|r: Result<T, E>| r->Ok_0)
}

/// What the expansion yields where failures are passed on: the failure of
/// the future that fails first, and else `Ok` of the struct.
pub open spec fn try_built<T, E>(
    descriptor: DescriptorView,
    yielded: Seq<Result<T, E>>,
    given: Seq<T>,
    finished: Seq<u64>,
) -> Result<RecordView<T>, E> {
    if any_failure(yielded) {
        Err(yielded[first_failure(yielded, finished)]->Err_0)
    } else {
        Ok(built(descriptor, successes(yielded), given))
    }
}

/// Where no two fields have the same name, only one place of the join binds
/// the name of a field that holds a future: the place of that field.
pub proof fn lemma_binding_place(fields: Seq<FieldView>, k: int)
    requires
        distinct_names(fields),
        0 <= k < fields.len(),
        fields[k].is_future(),
    ensures
        binding_place(resolvable(fields), fields[k].name.text) == future_rank(fields, k),
{
    let bound = resolvable(fields);
    let name = fields[k].name.text;
    lemma_rank(fields, k);
    let a = future_rank(fields, k);
    assert(0 <= a < bound.len() && bound[a].name.text == name);
    let j = binding_place(bound, name);
    assert(0 <= j < bound.len() && bound[j].name.text == name);
    let other = lemma_place_has_field(fields, j);
    lemma_rank(fields, other);
    assert(fields[other].name.text == name);
    assert(other == k);
}

/// Whatever the order in which futures and other values were declared, each
/// field of the struct gets its own value: a field with a future what that
/// future yields, any other field the value of its expression.
pub proof fn lemma_fields_get_their_values<T>(
    descriptor: DescriptorView,
    resolved: Seq<T>,
    given: Seq<T>,
)
    requires
        completes(descriptor, resolved.len(), given.len()),
    ensures
        built(descriptor, resolved, given).name == descriptor.struct_name.text,
        built(descriptor, resolved, given).fields.len() == descriptor.fields.len(),
        forall|k: int|
            0 <= k < descriptor.fields.len() ==> #[trigger] built(
                descriptor,
                resolved,
                given,
            ).fields[k] == (
                descriptor.fields[k].name.text,
                if descriptor.fields[k].is_future() {
                    resolved[future_rank(descriptor.fields, k)]
                } else {
                    given[plain_rank(descriptor.fields, k)]
                },
            ),
{
    let fields = descriptor.fields;
    assert forall|k: int| 0 <= k < fields.len() implies #[trigger] built(
        descriptor,
        resolved,
        given,
    ).fields[k] == (
        fields[k].name.text,
        if fields[k].is_future() {
            resolved[future_rank(fields, k)]
        } else {
            given[plain_rank(fields, k)]
        },
    ) by {
        if fields[k].is_future() {
            lemma_binding_place(fields, k);
        }
    }
}

/// A field of `a` stands in `b` too, where both have the same futures and
/// the same other fields, and has its rank there among the fields of its
/// kind.
proof fn lemma_same_field(a: Seq<FieldView>, b: Seq<FieldView>, i: int) -> (j: int)
    requires
        resolvable(a) == resolvable(b),
        normal(a) == normal(b),
        0 <= i < a.len(),
    ensures
        0 <= j < b.len(),
        b[j] == a[i],
        a[i].is_future() ==> future_rank(b, j) == future_rank(a, i),
        !a[i].is_future() ==> plain_rank(b, j) == plain_rank(a, i),
{
    lemma_rank(a, i);
    if a[i].is_future() {
        let j = lemma_place_has_field(b, future_rank(a, i));
        lemma_rank(b, j);
        j
    } else {
        let j = lemma_place_has_plain_field(b, plain_rank(a, i));
        lemma_rank(b, j);
        j
    }
}

/// The struct has a field of this name and value.
pub open spec fn has_field<T>(record: RecordView<T>, field: (Seq<char>, T)) -> bool {
    exists|j: int| 0 <= j < record.fields.len() && record.fields[j] == field
}

/// The order in which futures and other fields are mixed in the declaration
/// does not matter to what a field gets: of two invocations with the same
/// futures in the same order, and the same other fields in the same order,
/// each builds the fields of the other, every one with the same value.
pub proof fn lemma_mixing_is_immaterial<T>(
    a: DescriptorView,
    b: DescriptorView,
    resolved: Seq<T>,
    given: Seq<T>,
)
    requires
        completes(a, resolved.len(), given.len()),
        resolvable(a.fields) == resolvable(b.fields),
        normal(a.fields) == normal(b.fields),
        distinct_names(b.fields),
    ensures
        completes(b, resolved.len(), given.len()),
        built(a, resolved, given).fields.len() == built(b, resolved, given).fields.len(),
        forall|i: int|
            0 <= i < a.fields.len() ==> has_field(
                built(b, resolved, given),
                #[trigger] built(a, resolved, given).fields[i],
            ),
{
    lemma_sorted_lengths(a.fields);
    lemma_sorted_lengths(b.fields);
    lemma_fields_get_their_values(a, resolved, given);
    lemma_fields_get_their_values(b, resolved, given);
    assert forall|i: int| 0 <= i < a.fields.len() implies has_field(
        built(b, resolved, given),
        #[trigger] built(a, resolved, given).fields[i],
    ) by {
        let j = lemma_same_field(a.fields, b.fields, i);
        assert(built(b, resolved, given).fields[j] == built(a, resolved, given).fields[i]);
    }
}

/// Nor does it matter to a failure: which future fails first is settled by
/// the futures alone.
pub proof fn lemma_mixing_is_immaterial_to_failure<T, E>(
    a: DescriptorView,
    b: DescriptorView,
    yielded: Seq<Result<T, E>>,
    given: Seq<T>,
    finished: Seq<u64>,
)
    requires
        any_failure(yielded),
    ensures
        try_built(a, yielded, given, finished) == try_built(b, yielded, given, finished),
{
}

/// Where exactly one future fails, the expansion yields that failure, and no
/// struct, whenever the futures are done.
pub proof fn lemma_one_failure<T, E>(
    descriptor: DescriptorView,
    yielded: Seq<Result<T, E>>,
    given: Seq<T>,
    finished: Seq<u64>,
    j: int,
)
    requires
        0 <= j < yielded.len(),
        yielded[j] is Err,
        forall|i: int| 0 <= i < yielded.len() && i != j ==> yielded[i] is Ok,
    ensures
        fails_first(yielded, finished, j),
        try_built(descriptor, yielded, given, finished) == Err::<RecordView<T>, E>(
            yielded[j]->Err_0,
        ),
{
    assert(any_failure(yielded));
    assert(fails_first(yielded, finished, j));
    lemma_first_failure(descriptor, yielded, given, finished, j);
}

/// Where several futures fail, the expansion yields the failure of the one
/// that fails first, wherever it stands in the join.
pub proof fn lemma_first_failure<T, E>(
    descriptor: DescriptorView,
    yielded: Seq<Result<T, E>>,
    given: Seq<T>,
    finished: Seq<u64>,
    j: int,
)
    requires
        fails_first(yielded, finished, j),
    ensures
        first_failure(yielded, finished) == j,
        try_built(descriptor, yielded, given, finished) == Err::<RecordView<T>, E>(
            yielded[j]->Err_0,
        ),
{
    assert(any_failure(yielded));
    let first = first_failure(yielded, finished);
    assert(fails_first(yielded, finished, first));
    if first != j {
        assert(finished[j] < finished[first]);
        assert(finished[first] < finished[j]);
    }
}

/// Where the futures that fail do so in the order of the join, the expansion
/// yields the failure of the first of them in that order.
pub proof fn lemma_failures_in_order<T, E>(
    descriptor: DescriptorView,
    yielded: Seq<Result<T, E>>,
    given: Seq<T>,
    finished: Seq<u64>,
    j: int,
)
    requires
        0 <= j < yielded.len(),
        yielded[j] is Err,
        forall|i: int| 0 <= i < j ==> yielded[i] is Ok,
        forall|h: int, i: int|
            0 <= h < i < yielded.len() && yielded[h] is Err && yielded[i] is Err ==> finished[h]
                < finished[i],
    ensures
        try_built(descriptor, yielded, given, finished) == Err::<RecordView<T>, E>(
            yielded[j]->Err_0,
        ),
{
    assert(fails_first(yielded, finished, j));
    lemma_first_failure(descriptor, yielded, given, finished, j);
}

/// Where every future succeeds, the expansion yields `Ok` of the struct, and
/// each field of it has its own value.
pub proof fn lemma_all_succeed<T, E>(
    descriptor: DescriptorView,
    yielded: Seq<Result<T, E>>,
    given: Seq<T>,
    finished: Seq<u64>,
)
    requires
        completes(descriptor, yielded.len(), given.len()),
        forall|i: int| 0 <= i < yielded.len() ==> yielded[i] is Ok,
    ensures
        try_built(descriptor, yielded, given, finished) matches Ok(record) && record.name
            == descriptor.struct_name.text && record.fields.len() == descriptor.fields.len()
            && forall|k: int|
            0 <= k < descriptor.fields.len() ==> #[trigger] record.fields[k] == (
                descriptor.fields[k].name.text,
                if descriptor.fields[k].is_future() {
                    yielded[future_rank(descriptor.fields, k)]->Ok_0
                } else {
                    given[plain_rank(descriptor.fields, k)]
                },
            ),
{
    let values = successes(yielded);
    lemma_fields_get_their_values(descriptor, values, given);
    let record = built(descriptor, values, given);
    assert forall|k: int| 0 <= k < descriptor.fields.len() implies #[trigger] record.fields[k] == (
        descriptor.fields[k].name.text,
        if descriptor.fields[k].is_future() {
            yielded[future_rank(descriptor.fields, k)]->Ok_0
        } else {
            given[plain_rank(descriptor.fields, k)]
        },
    ) by {
        if descriptor.fields[k].is_future() {
            lemma_rank(descriptor.fields, k);
        }
    }
}

/// A struct that was built: its name, and each field's name and value, in the
/// order of the initializers.
#[derive(Debug, PartialEq, Eq)]
pub struct Record<T> {
    pub name: String,
    pub fields: Vec<(String, T)>,
}

/// The views of a run of named values, one for one.
pub open spec fn named_values<T>(fields: Seq<(String, T)>) -> Seq<(Seq<char>, T)> {
    fields.map_values(|f: (String, T)| (f.0@, f.1))
}

impl<T> View for Record<T> {
    type V = RecordView<T>;

    open spec fn view(&self) -> RecordView<T> {
        RecordView { name: self.name@, fields: named_values(self.fields@) }
    }
}

/// Counts the fields that hold a future.
fn count_futures(fields: &Vec<FuturedField>) -> (futures: usize)
    ensures
        futures == resolvable(field_views(fields@)).len(),
{
    let ghost all = field_views(fields@);
    let mut futures: usize = 0;
    let mut k: usize = 0;
    proof {
        lemma_sorted_lengths(all.take(0));
    }
    while k < fields.len()
        invariant
            k <= fields@.len(),
            all == field_views(fields@),
            futures == resolvable(all.take(k as int)).len(),
            futures <= k,
        decreases fields@.len() - k,
    {
        proof {
            assert(all.take(k + 1) =~= all.take(k as int).push(all[k as int]));
            lemma_sort_push(all.take(k as int), all[k as int]);
        }
        if fields[k].value.is_future() {
            futures += 1;
        }
        k += 1;
    }
    assert(all.take(k as int) =~= all);
    futures
}

/// Tells whether no two fields have the same name.
fn names_distinct(fields: &Vec<FuturedField>) -> (distinct: bool)
    ensures
        distinct == distinct_names(field_views(fields@)),
{
    let ghost all = field_views(fields@);
    let mut j: usize = 0;
    while j < fields.len()
        invariant
            j <= fields@.len(),
            all == field_views(fields@),
            forall|a: int, b: int| 0 <= a < b < j ==> all[a].name.text != all[b].name.text,
        decreases fields@.len() - j,
    {
        let mut i: usize = 0;
        while i < j
            invariant
                i <= j < fields@.len(),
                all == field_views(fields@),
                forall|a: int| 0 <= a < i ==> all[a].name.text != all[j as int].name.text,
            decreases j - i,
        {
            if fields[i].name.text == fields[j].name.text {
                assert(all[i as int].name.text == all[j as int].name.text);
                return false;
            }
            i += 1;
        }
        j += 1;
    }
    true
}

/// Builds the struct from the values, once it is known that there is one for
/// each field.
fn assemble<T>(data: &OutputStructAbstraction, resolved: Vec<T>, given: Vec<T>) -> (record: Record<
    T,
>)
    requires
        completes(data@, resolved@.len(), given@.len()),
    ensures
        record@ == built(data@, resolved@, given@),
{
    let ghost all = data@.fields;
    let ghost model = built(data@, resolved@, given@);
    let mut bound = reversed(resolved);
    let mut plain = reversed(given);
    let mut fields: Vec<(String, T)> = Vec::new();
    let mut k: usize = 0;
    proof {
        lemma_fields_get_their_values(data@, resolved@, given@);
        lemma_sorted_lengths(all.take(0));
        assert(resolved@.skip(0) =~= resolved@);
        assert(given@.skip(0) =~= given@);
        assert(named_values(fields@) =~= model.fields.take(0));
    }
    while k < data.fields.len()
        invariant
            k <= data.fields@.len(),
            all == field_views(data.fields@),
            all == data@.fields,
            model == built(data@, resolved@, given@),
            completes(data@, resolved@.len(), given@.len()),
            bound@ == resolved@.skip(future_rank(all, k as int)).reverse(),
            plain@ == given@.skip(plain_rank(all, k as int)).reverse(),
            named_values(fields@) == model.fields.take(k as int),
        decreases data.fields@.len() - k,
    {
        let ghost a = future_rank(all, k as int);
        let ghost n = plain_rank(all, k as int);
        let ghost before = named_values(fields@);
        proof {
            lemma_fields_get_their_values(data@, resolved@, given@);
            lemma_rank(all, k as int);
            assert(all.take(k + 1) =~= all.take(k as int).push(all[k as int]));
            lemma_sort_push(all.take(k as int), all[k as int]);
        }
        let field = &data.fields[k];
        assert(field@ == all[k as int]);
        let value = if field.value.is_future() {
            let value = take_next(&mut bound, Ghost(resolved@.skip(a)));
            assert(resolved@.skip(a).skip(1) =~= resolved@.skip(a + 1));
            value
        } else {
            let value = take_next(&mut plain, Ghost(given@.skip(n)));
            assert(given@.skip(n).skip(1) =~= given@.skip(n + 1));
            value
        };
        fields.push((field.name.text.clone(), value));
        assert(named_values(fields@) =~= before.push(model.fields[k as int]));
        assert(model.fields.take(k + 1) =~= before.push(model.fields[k as int]));
        k += 1;
    }
    assert(model.fields.take(k as int) =~= model.fields);
    Record { name: data.struct_name.text.clone(), fields }
}

/// Tells whether the expansion of `data` runs to completion on `resolved`
/// values from the futures and `given` values from the other fields.
fn can_complete(data: &OutputStructAbstraction, resolved: usize, given: usize) -> (can: bool)
    ensures
        can == completes(data@, resolved as nat, given as nat),
{
    proof {
        lemma_sorted_lengths(data@.fields);
    }
    let futures = count_futures(&data.fields);
    futures > 0 && resolved == futures && given == data.fields.len() - futures && names_distinct(
        &data.fields,
    )
}

/// What the expansion of `data` by `conquer_future` yields where the futures
/// yield `resolved`, in the order of their declaration, and the other fields'
/// expressions have the values `given`, in the order of theirs: the struct
/// with each field's own value.
///
/// There is nothing to yield, and `None` is returned, where `data` holds no
/// future, where a name occurs twice, or where a value is missing or left
/// over.
pub fn complete<T>(data: &OutputStructAbstraction, resolved: Vec<T>, given: Vec<T>) -> (r: Option<
    Record<T>,
>)
    ensures
        r is Some <==> completes(data@, resolved@.len(), given@.len()),
        r matches Some(record) ==> record@ == built(data@, resolved@, given@),
{
    if can_complete(data, resolved.len(), given.len()) {
        Some(assemble(data, resolved, given))
    } else {
        None
    }
}

/// Finds the future that fails first. `Some(None)`: none fails. `None`: of
/// those that fail none is first, as two are done at the same moment.
fn find_first_failure<T, E>(yielded: &Vec<Result<T, E>>, finished: &Vec<u64>) -> (r: Option<
    Option<usize>,
>)
    requires
        finished@.len() == yielded@.len(),
    ensures
        r is Some <==> observable(yielded@, finished@),
        r matches Some(found) ==> match found {
            Some(j) => fails_first(yielded@, finished@, j as int),
            None => !any_failure(yielded@),
        },
{
    let mut first: Option<usize> = None;
    let mut tied = false;
    let mut k: usize = 0;
    while k < yielded.len()
        invariant
            k <= yielded@.len(),
            finished@.len() == yielded@.len(),
            first is None ==> !tied && forall|i: int| 0 <= i < k ==> yielded@[i] is Ok,
            first matches Some(j) ==> j < k && yielded@[j as int] is Err && forall|i: int|
                0 <= i < k && yielded@[i] is Err ==> finished@[j as int] <= finished@[i],
            first matches Some(j) ==> (tied <==> exists|i: int|
                0 <= i < k && i != j && yielded@[i] is Err && finished@[i] == finished@[j as int]),
        decreases yielded@.len() - k,
    {
        let fails = match &yielded[k] {
            Ok(_) => false,
            Err(_) => true,
        };
        if fails {
            match first {
                None => {
                    first = Some(k);
                },
                Some(j) => {
                    if finished[k] < finished[j] {
                        first = Some(k);
                        tied = false;
                    } else if finished[k] == finished[j] {
                        tied = true;
                        assert(yielded@[k as int] is Err && finished@[k as int] == finished@[j as int]);
                    }
                },
            }
        }
        k += 1;
    }
    match first {
        None => {
            assert(!any_failure(yielded@));
            Some(None)
        },
        Some(j) => {
            if tied {
                proof {
                    let other = choose|i: int|
                        0 <= i < yielded@.len() && i != j && yielded@[i] is Err && finished@[i]
                            == finished@[j as int];
                    assert forall|h: int| !fails_first(yielded@, finished@, h) by {
                        if fails_first(yielded@, finished@, h) {
                            if h == j {
                                assert(finished@[h] < finished@[other]);
                            } else {
                                assert(finished@[h] < finished@[j as int]);
                            }
                        }
                    }
                    assert(any_failure(yielded@));
                }
                None
            } else {
                assert(fails_first(yielded@, finished@, j as int));
                Some(Some(j))
            }
        },
    }
}

/// What the expansion of `data` by `try_conquer_future` yields where the
/// futures yield `yielded`, in the order of their declaration, each at its
/// moment of `finished`, and the other fields' expressions have the values
/// `given`, in the order of theirs: the failure of the future that fails
/// first, and else `Ok` of the struct with each field's own value.
///
/// There is nothing to yield, and `None` is returned, where `data` holds no
/// future, where a name occurs twice, where a value or a moment is missing
/// or left over, or where, of the futures that fail, none is first.
pub fn try_complete<T, E>(
    data: &OutputStructAbstraction,
    yielded: Vec<Result<T, E>>,
    given: Vec<T>,
    finished: Vec<u64>,
) -> (r: Option<Result<Record<T>, E>>)
    ensures
        r is Some <==> completes(data@, yielded@.len(), given@.len()) && observable(
            yielded@,
            finished@,
        ),
        r matches Some(outcome) ==> match try_built(data@, yielded@, given@, finished@) {
            Ok(record) => outcome matches Ok(built) && built@ == record,
            Err(failure) => outcome matches Err(e) && e == failure,
        },
{
    if !can_complete(data, yielded.len(), given.len()) || finished.len() != yielded.len() {
        return None;
    }
    let first = match find_first_failure(&yielded, &finished) {
        Some(first) => first,
        None => {
            return None;
        },
    };
    match first {
        Some(j) => {
            proof {
                lemma_first_failure(data@, yielded@, given@, finished@, j as int);
            }
            let mut yielded = yielded;
            match yielded.swap_remove(j) {
                Err(failure) => Some(Err(failure)),
                Ok(_) => vstd::pervasive::unreached(),
            }
        },
        None => {
            let mut resolved: Vec<T> = Vec::new();
            for outcome in it: yielded
                invariant
                    it.seq() == yielded@,
                    !any_failure(yielded@),
                    resolved@.len() == it.index(),
                    forall|i: int| 0 <= i < it.index() ==> yielded@[i] == Ok::<T, E>(resolved@[i]),
            {
                assert(yielded@[it.index() as int] is Ok);
                match outcome {
                    Ok(value) => {
                        resolved.push(value);
                    },
                    Err(_) => vstd::pervasive::unreached(),
                }
            }
            assert(resolved@ =~= successes(yielded@));
            Some(Ok(assemble(data, resolved, given)))
        },
    }
}

} // verus!
