//! The objects dam keeps, as plain values: what the application layer reads
//! of tasks and events, their identifiers and paths, and the changes between
//! two states of one object.

mod ids;

pub use ids::{CommitId, Oid, hex_digit, hex_of, is_id_text, short_text};
mod path;

pub use path::{
    Path, PathError, joined, last_segment, last_segment_text, normalized, parent_text, path_ok,
    seg_start, segment_ok, within,
};
mod values;

pub use values::{
    copy_ints, copy_oids, lemma_to_set_push, copy_opt_oid, copy_opt_text, copy_texts, ints_eq, oid_texts, oids_contain,
    oids_eq, opt_oid_eq, opt_oid_text, opt_text, opt_text_eq, texts, texts_contain, texts_eq,
};
mod object;

pub use object::{
    Base, BaseView, Date, Event, EventStatus, EventType, EventView, Field, Kind, Object,
    ObjectView, PRIORITY_HIGHEST, PRIORITY_LOWEST, Task, TaskView, Timestamp, Transparency,
    Visibility, When, copy_opt, earlier, is_earlier, new_event_view, new_task_view, opt_object, same_opt,
};
mod change;

pub use change::{
    Change, ChangeView, CommitRecord, CommitRecordView, Op, all_fields, change_views,
    changed_fields, changed_fields_spec, coalesce, coalesce_spec, copy_changes, diff, diff_spec,
    field_differs, fields_contain, lemma_filter_push, opt_change, record_views,
};
mod labels;

pub use labels::{
    Categories, Category, CategoryView, LabelViolation, LabelViolationView, exclusive_violation,
    held_in, names_repeat, violation_text,
};
mod rules;

pub use rules::{
    Blocker, BlockerView, ChildDisposition, DependencyDisposition, Dispositions, Force,
    blocker_views, blockers, blockers_spec,
};
mod order;
mod text;

pub use order::{
    less_at, lemma_text_lt_irreflexive, lemma_text_lt_total, lemma_text_lt_transitive, text_less, text_lt,
};
pub use text::{decimal, decimal_text, escaped, escaped_char, join_texts, joined_with, quote, quoted};
