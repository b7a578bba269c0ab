//! The values that requests and answers are made of: how keys are ordered,
//! what a range holds, how numbers and bytes are written, what a request
//! asks for once it is built, and what a row or an announcement accepts.

use vstd::prelude::*;
use vstd::utf8::encode_utf8;

use crate::atomic::AtomicCommit;
use crate::checkpoint::{
    misplaced_segment, Checkpoint, CheckpointDigest, ReferenceModel, SegmentDigest,
};
use crate::error::{Error, Failure};
use crate::fold::{RowLanding, RowMaterializer, RowModel, ViewDigest};
use crate::laws::covering::{holds_together, lemma_verification};
use crate::laws::rebuild::held_at;
use crate::laws::requests::{asked_for, lemma_inside_is_contained};
use crate::models::views;
use crate::mutation::{CommitRequest, WriteModel, WriteOperation};
use crate::operation::SemaOperation;
use crate::order::{bytes_precede, diverges};
use crate::query::{
    FilterModel, KeyRange, QueryFilter, ReadOperator, ReadPlanNode, RecordIdentifierRange,
};
use crate::record::{
    key_precedes, message_view, EncodedRecord, KeyModel, RecordIdentifier, RecordKey,
};
use crate::snapshot::SnapshotIdentifier;
use crate::staging::{AnnouncementModel, DeltaAnnouncer};
use crate::subscribe::{DeltaKind, SequenceRange};
use crate::table::{
    carries, IdentifiedTableReference, PriorCarry, PriorGenerations, TableName, TableReference,
    WithPrior,
};
use crate::tables::TablesModel;
use crate::text::{decimal_text, hex_digit, hex_text};

verus! {

/// Bytes are ordered as in a dictionary: where two runs first differ, the
/// smaller byte comes first, and a run comes before what it starts.
pub proof fn lemma_dictionary_order(
    front: Seq<u8>,
    low: u8,
    high: u8,
    one: Seq<u8>,
    other: Seq<u8>,
)
    requires
        low < high,
    ensures
        bytes_precede(front.push(low) + one, front.push(high) + other),
        !bytes_precede(front.push(high) + other, front.push(low) + one),
        bytes_precede(front, front.push(low) + one),
        !bytes_precede(front.push(low) + one, front),
{
    let a = front.push(low) + one;
    let b = front.push(high) + other;
    let n = front.len() as int;
    assert forall|j: int| 0 <= j < n implies a[j] == b[j] by {
        assert(a[j] == front[j] && b[j] == front[j]);
    }
    assert(a[n] == low && b[n] == high);
    assert(diverges(a, b, n));
    assert(!bytes_precede(b, a)) by {
        if bytes_precede(b, a) {
            let at = choose|at: int| diverges(b, a, at);
            if at < n {
                assert(a[at] == b[at]);
            } else if at > n {
                assert(b[n] == a[n]);
            }
        }
    }
    assert(diverges(front, a, n)) by {
        assert forall|j: int| 0 <= j < n implies front[j] == a[j] by {}
    }
    assert(!bytes_precede(a, front)) by {
        if bytes_precede(a, front) {
            let at = choose|at: int| diverges(a, front, at);
            assert(a[at] == front[at]);
        }
    }
}

/// Keys are ordered by kind, text before identifiers; texts by their UTF-8
/// bytes, as in a dictionary; identifiers by number.
pub proof fn lemma_key_order(a: Seq<char>, b: Seq<char>, low: u64, high: u64)
    ensures
        key_precedes(KeyModel::Domain(a), KeyModel::Domain(b)) <==> bytes_precede(
            encode_utf8(a),
            encode_utf8(b),
        ),
        key_precedes(KeyModel::Domain(a), KeyModel::Identifier(low)),
        !key_precedes(KeyModel::Identifier(low), KeyModel::Domain(a)),
        key_precedes(KeyModel::Identifier(low), KeyModel::Identifier(high)) <==> low < high,
{
}

/// A key range holds exactly the keys from its start to its end, both
/// included, each only where it is given.
pub proof fn lemma_range_calls(
    start: RecordKey,
    end: RecordKey,
    key: &RecordKey,
    between: KeyRange,
    from: KeyRange,
    through: KeyRange,
    answers: (bool, bool, bool),
)
    requires
        call_ensures(KeyRange::between, (start, end), between),
        call_ensures(KeyRange::from, (start,), from),
        call_ensures(KeyRange::through, (end,), through),
        call_ensures(KeyRange::contains, (&between, key), answers.0),
        call_ensures(KeyRange::contains, (&from, key), answers.1),
        call_ensures(KeyRange::contains, (&through, key), answers.2),
    ensures
        answers.1 <==> start@ == key@ || key_precedes(start@, key@),
        answers.2 <==> key@ == end@ || key_precedes(key@, end@),
        answers.0 <==> answers.1 && answers.2,
{
    lemma_inside_is_contained(between@, key@);
    lemma_inside_is_contained(from@, key@);
    lemma_inside_is_contained(through@, key@);
}

/// A range of identifiers holds exactly the numbers from its start to its
/// end, both included, each only where it is given.
pub proof fn lemma_identifier_range_calls(
    start: RecordIdentifier,
    end: RecordIdentifier,
    identifier: RecordIdentifier,
    between: RecordIdentifierRange,
    from: RecordIdentifierRange,
    through: RecordIdentifierRange,
    answers: (bool, bool, bool),
)
    requires
        call_ensures(RecordIdentifierRange::between, (start, end), between),
        call_ensures(RecordIdentifierRange::from, (start,), from),
        call_ensures(RecordIdentifierRange::through, (end,), through),
        call_ensures(RecordIdentifierRange::contains, (&between, identifier), answers.0),
        call_ensures(RecordIdentifierRange::contains, (&from, identifier), answers.1),
        call_ensures(RecordIdentifierRange::contains, (&through, identifier), answers.2),
    ensures
        answers.0 <==> start@ <= identifier@ <= end@,
        answers.1 <==> start@ <= identifier@,
        answers.2 <==> identifier@ <= end@,
{
}

/// A range of committed states holds exactly those from its start to its
/// end, both included.
pub proof fn lemma_sequence_range_calls(
    start: SnapshotIdentifier,
    end: SnapshotIdentifier,
    snapshot: SnapshotIdentifier,
    between: SequenceRange,
    from: SequenceRange,
    answers: (bool, bool),
)
    requires
        call_ensures(SequenceRange::between, (start, end), between),
        call_ensures(SequenceRange::from, (start,), from),
        call_ensures(SequenceRange::contains, (&between, snapshot), answers.0),
        call_ensures(SequenceRange::contains, (&from, snapshot), answers.1),
    ensures
        answers.0 <==> start@ <= snapshot@ <= end@,
        answers.1 <==> start@ <= snapshot@,
{
}

/// A filter accepts exactly the keys that it asks for.
pub proof fn lemma_accepts_call(filter: &QueryFilter, key: &RecordKey, accepted: bool)
    requires
        call_ensures(QueryFilter::accepts, (filter, key), accepted),
    ensures
        accepted <==> asked_for(filter@, key@),
{
    if let FilterModel::KeyRange(range) = filter@ {
        lemma_inside_is_contained(range, key@);
    }
}

/// The number that a digit stands for.
pub open spec fn digit_value(digit: char) -> int {
    if '0' <= digit && digit <= '9' {
        digit as int - '0' as int
    } else {
        digit as int - 'a' as int + 10
    }
}

/// A lower-case hexadecimal digit.
pub open spec fn is_digit(digit: char) -> bool {
    ('0' <= digit && digit <= '9') || ('a' <= digit && digit <= 'f')
}

proof fn lemma_digit(value: int)
    requires
        0 <= value < 16,
    ensures
        is_digit(hex_digit(value)),
        digit_value(hex_digit(value)) == value,
        value < 10 ==> '0' <= hex_digit(value) && hex_digit(value) <= '9',
        value > 0 ==> hex_digit(value) != '0',
{
}

/// Bytes are written as two digits each, in order, the high half first.
pub proof fn lemma_hex_reads_back(bytes: Seq<u8>, at: int)
    requires
        0 <= at < bytes.len(),
    ensures
        hex_text(bytes).len() == 2 * bytes.len(),
        is_digit(hex_text(bytes)[2 * at]),
        is_digit(hex_text(bytes)[2 * at + 1]),
        digit_value(hex_text(bytes)[2 * at]) * 16 + digit_value(hex_text(bytes)[2 * at + 1])
            == bytes[at],
{
    let value = bytes[at] as int;
    lemma_digit(value / 16);
    lemma_digit(value % 16);
    assert((2 * at) / 2 == at && (2 * at) % 2 == 0);
    assert((2 * at + 1) / 2 == at && (2 * at + 1) % 2 == 1);
}

/// The number that decimal digits come to, the last counting ones.
pub open spec fn number_of(digits: Seq<char>) -> int
    decreases digits.len(),
{
    if digits.len() == 0 {
        0
    } else {
        number_of(digits.drop_last()) * 10 + digit_value(digits.last())
    }
}

/// A number is written in decimal digits that come to it, without a leading
/// zero.
pub proof fn lemma_decimal_reads_back(value: nat)
    ensures
        decimal_text(value).len() > 0,
        number_of(decimal_text(value)) == value,
        value > 0 ==> decimal_text(value)[0] != '0',
        forall|i: int|
            0 <= i < decimal_text(value).len() ==> '0' <= #[trigger] decimal_text(value)[i]
                && decimal_text(value)[i] <= '9',
    decreases value,
{
    let text = decimal_text(value);
    if value < 10 {
        lemma_digit(value as int);
        assert(text.drop_last() =~= Seq::empty());
        reveal_with_fuel(number_of, 2);
    } else {
        lemma_decimal_reads_back(value / 10);
        lemma_digit((value % 10) as int);
        assert(text.drop_last() =~= decimal_text(value / 10));
    }
}

/// A request over one table asks for its writes in the order they were
/// added, of the verbs they were added with.
pub proof fn lemma_request_built(
    table: TableReference<EncodedRecord>,
    asserted: EncodedRecord,
    mutated: EncodedRecord,
    retracted: RecordKey,
    blank: CommitRequest<EncodedRecord>,
    request: CommitRequest<EncodedRecord>,
    with_assert: CommitRequest<EncodedRecord>,
    with_mutate: CommitRequest<EncodedRecord>,
    with_retract: CommitRequest<EncodedRecord>,
)
    requires
        call_ensures(CommitRequest::<EncodedRecord>::new, (table,), blank),
        call_ensures(
            CommitRequest::<EncodedRecord>::assert_record,
            (request, asserted),
            with_assert,
        ),
        call_ensures(CommitRequest::<EncodedRecord>::mutate, (request, mutated), with_mutate),
        call_ensures(CommitRequest::<EncodedRecord>::retract, (request, retracted), with_retract),
    ensures
        blank@.table == table@,
        blank@.operations.len() == 0,
        with_assert@.table == request@.table,
        with_assert@.operations.drop_last() == request@.operations,
        with_assert@.operations.last() == WriteOperation::Assert(asserted),
        with_mutate@.table == request@.table,
        with_mutate@.operations.drop_last() == request@.operations,
        with_mutate@.operations.last() == WriteOperation::<EncodedRecord>::Mutate(mutated),
        with_retract@.table == request@.table,
        with_retract@.operations.drop_last() == request@.operations,
        with_retract@.operations.last() == WriteOperation::<EncodedRecord>::Retract(retracted),
{
    assert(with_assert@.operations.drop_last() =~= request@.operations);
    assert(with_mutate@.operations.drop_last() =~= request@.operations);
    assert(with_retract@.operations.drop_last() =~= request@.operations);
}

/// A request over several tables asks for its writes in the order they were
/// added, each for the table it was added with.
pub proof fn lemma_group_built(
    table: TableReference<EncodedRecord>,
    asserted: EncodedRecord,
    mutated: EncodedRecord,
    retracted: RecordKey,
    blank: AtomicCommit,
    group: AtomicCommit,
    with_assert: AtomicCommit,
    with_mutate: AtomicCommit,
    with_retract: AtomicCommit,
)
    requires
        call_ensures(AtomicCommit::new, (), blank),
        call_ensures(AtomicCommit::assert_record, (group, table, asserted), with_assert),
        call_ensures(AtomicCommit::mutate, (group, table, mutated), with_mutate),
        call_ensures(AtomicCommit::retract, (group, table, retracted), with_retract),
    ensures
        blank@.len() == 0,
        with_assert@.drop_last() == group@,
        with_assert@.last() == (table@, WriteModel::Assert(asserted@)),
        with_mutate@.drop_last() == group@,
        with_mutate@.last() == (table@, WriteModel::Mutate(mutated@)),
        with_retract@.drop_last() == group@,
        with_retract@.last() == (table@, WriteModel::Retract(retracted@)),
{
    assert(with_assert@.drop_last() =~= group@);
    assert(with_mutate@.drop_last() =~= group@);
    assert(with_retract@.drop_last() =~= group@);
}

/// A row may land in a table: it is of a family bound there, its key is of
/// the kind that the table has, and its record, if it has one, read back.
pub open spec fn may_stand(
    row: RowModel,
    table: Seq<char>,
    identified: bool,
    unread: Option<Seq<char>>,
) -> bool {
    &&& row.family.table == table
    &&& row.key is Identifier == identified
    &&& row.payload is Some ==> unread is None
}

/// Why a row may not land in a table.
pub open spec fn may_not_stand(
    row: RowModel,
    table: Seq<char>,
    identified: bool,
    unread: Option<Seq<char>>,
    failure: Failure,
) -> bool {
    if row.family.table != table {
        failure == (Failure::MaterializeTableMismatch {
            family: row.family.family,
            expected: row.family.table,
            supplied: table,
        })
    } else if row.key is Identifier != identified {
        failure is MaterializeKeyKindMismatch
    } else {
        failure == (Failure::VersionedPayloadDecode { table, message: unread->0 })
    }
}

/// A landing leaves a row in the tables: under its own key its record, or
/// nothing, and every other row and the counters as they were.
pub open spec fn leaves_row(landing: RowLanding, row: RowModel) -> bool {
    forall|tables: TablesModel, table: Seq<char>, key: KeyModel|
        #![trigger held_at(landing.leaves(tables), table, key)]
        {
            &&& held_at(landing.leaves(tables), table, key) == if table == row.family.table && key
                == row.key {
                row.payload
            } else {
                held_at(tables, table, key)
            }
            &&& landing.leaves(tables).counters == tables.counters
        }
}

/// A row is applied to a domain-keyed table exactly where it may land there.
pub proof fn lemma_apply_read_call<RecordValue>(
    row: RowMaterializer,
    table: TableReference<RecordValue>,
    read: Result<(), String>,
    outcome: Result<RowLanding, Error>,
)
    requires
        call_ensures(RowMaterializer::apply_read::<RecordValue>, (row, table, read), outcome),
    ensures
        outcome is Ok <==> may_stand(row@, table@, false, message_view(read)),
        match outcome {
            Ok(landing) => landing@ == Some(row@) && leaves_row(landing, row@),
            Err(error) => may_not_stand(row@, table@, false, message_view(read), error@),
        },
{
}

/// A row is applied to an engine-identified table exactly where it may land
/// there.
pub proof fn lemma_apply_identified_read_call<RecordValue>(
    row: RowMaterializer,
    table: IdentifiedTableReference<RecordValue>,
    read: Result<(), String>,
    outcome: Result<RowLanding, Error>,
)
    requires
        call_ensures(
            RowMaterializer::apply_identified_read::<RecordValue>,
            (row, table, read),
            outcome,
        ),
    ensures
        outcome is Ok <==> may_stand(row@, table@, true, message_view(read)),
        match outcome {
            Ok(landing) => landing@ == Some(row@) && leaves_row(landing, row@),
            Err(error) => may_not_stand(row@, table@, true, message_view(read), error@),
        },
{
}

/// An announcement goes to a table exactly where that is its family's own
/// and its record read back.
pub open spec fn announces(
    told: AnnouncementModel,
    table: Seq<char>,
    unread: Option<Seq<char>>,
    outcome: Result<Option<TableName>, Error>,
) -> bool {
    &&& outcome is Ok <==> told.family.table == table && unread is None
    &&& outcome matches Ok(answer) ==> answer is Some && answer->0@ == table
    &&& outcome matches Err(error) ==> if told.family.table == table {
        error@ == (Failure::VersionedPayloadDecode { table, message: unread->0 })
    } else {
        error@ == (Failure::MaterializeTableMismatch {
            family: told.family.family,
            expected: told.family.table,
            supplied: table,
        })
    }
}

/// Announcements with given readings.
pub proof fn lemma_announce_read_calls<RecordValue>(
    told: DeltaAnnouncer,
    table: TableReference<RecordValue>,
    identified: IdentifiedTableReference<RecordValue>,
    read: Result<(), String>,
    outcome: Result<Option<TableName>, Error>,
    other: Result<Option<TableName>, Error>,
)
    requires
        call_ensures(
            DeltaAnnouncer::announce_read::<RecordValue>,
            (told, table, read),
            outcome,
        ),
        call_ensures(
            DeltaAnnouncer::announce_identified_read::<RecordValue>,
            (told, identified, read),
            other,
        ),
    ensures
        announces(told@, table@, message_view(read), outcome),
        announces(told@, identified@, message_view(read), other),
{
}

/// A checkpoint verifies exactly where it holds together.
pub proof fn lemma_verify_checkpoint_call(checkpoint: &Checkpoint, outcome: Result<(), Error>)
    requires
        call_ensures(Checkpoint::verify, (checkpoint,), outcome),
    ensures
        outcome is Ok <==> holds_together(checkpoint@),
{
    lemma_verification(checkpoint@);
}

/// References name digests, one for one.
pub open spec fn digests_match(references: Seq<ReferenceModel>, digests: Seq<Seq<u8>>) -> bool {
    forall|i: int|
        0 <= i < references.len() ==> (#[trigger] references[i]).digest == digests[i]
}

proof fn lemma_digests_match(references: Seq<ReferenceModel>, digests: Seq<Seq<u8>>)
    requires
        references.len() == digests.len(),
    ensures
        misplaced_segment(references, digests) is None <==> digests_match(references, digests),
    decreases references.len(),
{
    if references.len() > 0 {
        let less = references.drop_last();
        let fewer = digests.drop_last();
        let end = references.len() - 1;
        lemma_digests_match(less, fewer);
        if digests_match(references, digests) {
            assert forall|i: int| 0 <= i < less.len() implies (
            #[trigger] less[i]).digest == fewer[i] by {
                assert(references[i].digest == digests[i]);
            }
            assert(references[end].digest == digests[end]);
        }
        if misplaced_segment(references, digests) is None {
            assert forall|i: int| 0 <= i < references.len() implies (
            #[trigger] references[i]).digest == digests[i] by {
                if i < end {
                    assert(less[i].digest == fewer[i]);
                }
            }
        }
    }
}

/// A checkpoint stands up against digests that were computed of it exactly
/// where each is the one that its metadata names.
pub proof fn lemma_verify_against_call(
    checkpoint: &Checkpoint,
    metadata_digest: CheckpointDigest,
    digests: &[SegmentDigest],
    view: Result<ViewDigest, Error>,
    outcome: Result<(), Error>,
)
    requires
        digests@.len() == checkpoint@.segments.len(),
        call_ensures(
            Checkpoint::verify_against,
            (checkpoint, metadata_digest, digests, view),
            outcome,
        ),
    ensures
        outcome is Ok <==> {
            let metadata = checkpoint@.metadata;
            &&& metadata_digest@ == metadata.digest
            &&& metadata.segments.len() == checkpoint@.segments.len()
            &&& digests_match(metadata.segments, views(digests@))
            &&& view is Ok
            &&& view->Ok_0@ == metadata.view_digest
        },
{
    if checkpoint@.metadata.segments.len() == checkpoint@.segments.len() {
        lemma_digests_match(checkpoint@.metadata.segments, views(digests@));
    }
}

/// The carries of a declaration: a generation is declared where it or an
/// earlier one names it, and a row of it goes to the first that does.
pub proof fn lemma_first_carry<Earlier: PriorGenerations, Carry: PriorCarry>(
    generations: WithPrior<Earlier, Carry>,
    prior: Seq<u8>,
    row: (Seq<char>, Seq<u8>),
    answer: Result<Vec<u8>, Error>,
)
    ensures
        generations.names(prior) <==> generations.earlier.names(prior) || generations.prior@
            == prior,
        generations.earlier.names(prior) ==> (generations.answers(prior, row, answer)
            <==> generations.earlier.answers(prior, row, answer)),
        !generations.earlier.names(prior) && generations.answers(prior, row, answer) ==> carries(
            &generations.carry,
            prior,
            row,
            answer,
        ),
{
}

/// A delta is told under the verb of its kind.
pub proof fn lemma_verb_call(kind: &DeltaKind, verb: SemaOperation)
    requires
        call_ensures(DeltaKind::verb, (kind,), verb),
    ensures
        verb is Assert <==> kind is Assert,
        verb is Mutate <==> kind is Mutate,
        verb is Retract <==> kind is Retract,
{
}

/// A plan's operator is that of its outermost step.
pub proof fn lemma_operator_call(node: &ReadPlanNode, operator: ReadOperator)
    requires
        call_ensures(ReadPlanNode::operator, (node,), operator),
    ensures
        operator is AllRows <==> node is AllRows,
        operator is ByKey <==> node is ByKey,
        operator is ByKeyRange <==> node is ByKeyRange,
        operator is Filter <==> node is Filter,
        operator is Constrain <==> node is Constrain,
        operator is Project <==> node is Project,
        operator is Aggregate <==> node is Aggregate,
        operator is Infer <==> node is Infer,
        operator is Recurse <==> node is Recurse,
{
}

} // verus!
