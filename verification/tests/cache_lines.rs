use gwr_models::cache::line_state::{
    AllocateExclusive, AllocateShared, CacheEntry, GrantExclusiveClean, GrantExclusiveModified, GrantShared,
    InvalidateLine, LineState, LocalWriteModified,
};

#[test]
fn line_state_predicates_and_labels_cover_all_states() {
    assert!(!LineState::Invalid.is_allocated());
    assert!(LineState::AllocatedShared.is_allocated());
    assert!(LineState::AllocatedExclusive.is_allocated());
    assert!(!LineState::Shared.is_allocated());
    assert!(!LineState::Exclusive.is_allocated());
    assert!(!LineState::Modified.is_allocated());

    assert!(LineState::Invalid.is_evictable());
    assert!(!LineState::AllocatedShared.is_evictable());
    assert!(!LineState::AllocatedExclusive.is_evictable());
    assert!(LineState::Shared.is_evictable());
    assert!(LineState::Exclusive.is_evictable());
    assert!(!LineState::Modified.is_evictable());

    assert!(!LineState::Invalid.can_read_hit());
    assert!(!LineState::AllocatedShared.can_read_hit());
    assert!(!LineState::AllocatedExclusive.can_read_hit());
    assert!(LineState::Shared.can_read_hit());
    assert!(LineState::Exclusive.can_read_hit());
    assert!(LineState::Modified.can_read_hit());

    assert!(!LineState::Invalid.can_write_hit());
    assert!(!LineState::AllocatedShared.can_write_hit());
    assert!(!LineState::AllocatedExclusive.can_write_hit());
    assert!(!LineState::Shared.can_write_hit());
    assert!(LineState::Exclusive.can_write_hit());
    assert!(LineState::Modified.can_write_hit());

    assert_eq!(LineState::Invalid.as_str(), "Invalid");
    assert_eq!(LineState::AllocatedShared.as_str(), "AllocatedShared");
    assert_eq!(LineState::AllocatedExclusive.as_str(), "AllocatedExclusive");
    assert_eq!(LineState::Shared.as_str(), "Shared");
    assert_eq!(LineState::Exclusive.as_str(), "Exclusive");
    assert_eq!(LineState::Modified.as_str(), "Modified");
}

#[test]
fn line_transition_types_accept_only_valid_source_states() {
    let mut entry = CacheEntry { line_state: LineState::Invalid, tag: 0 };

    assert!(!entry.apply::<GrantShared>());
    assert!(entry.apply::<AllocateShared>());
    assert_eq!(entry.line_state, LineState::AllocatedShared);

    assert!(!entry.apply::<LocalWriteModified>());
    assert!(entry.apply::<GrantShared>());
    assert_eq!(entry.line_state, LineState::Shared);

    assert!(entry.apply::<AllocateExclusive>());
    assert_eq!(entry.line_state, LineState::AllocatedExclusive);
    assert!(entry.apply::<GrantExclusiveClean>());
    assert_eq!(entry.line_state, LineState::Exclusive);

    assert!(entry.apply::<LocalWriteModified>());
    assert_eq!(entry.line_state, LineState::Modified);

    assert!(entry.apply::<InvalidateLine>());
    assert_eq!(entry.line_state, LineState::Invalid);
}

#[test]
fn modified_lines_cannot_be_reallocated_before_invalidation() {
    let mut entry = CacheEntry { line_state: LineState::AllocatedShared, tag: 7 };
    assert!(entry.apply::<GrantExclusiveModified>());
    assert_eq!(entry.line_state, LineState::Modified);
    assert!(!entry.can_apply::<AllocateShared>());
    assert!(!entry.apply::<AllocateExclusive>());
    assert_eq!(entry.tag, 7);
    assert!(!CacheEntry::default().can_apply::<InvalidateLine>());
    assert_eq!(LineState::default(), LineState::Invalid);
}
