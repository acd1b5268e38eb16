use photo_cleanup::family::categories::{CategorizeReport, Category, CategoryTally};
use photo_cleanup::family::reports::{BuildReport, RoleTally};
use photo_cleanup::family::roles::Role;

#[test]
fn a_written_group_is_counted_by_role_with_its_copies_and_their_bytes() {
    let mut report = BuildReport::default();
    report.count_family(&[Role::Original, Role::Copy, Role::Copy, Role::Export], &[100, 40, 60, 7]);
    report.count_family(&[Role::Original], &[5]);
    assert_eq!(report.families, 2);
    assert_eq!(report.multi_member, 1);
    assert_eq!(
        report.by_role,
        RoleTally { original: 2, copy: 2, export: 1, ..RoleTally::default() }
    );
    assert_eq!(report.by_role.count(Role::Copy), 2);
    assert_eq!(report.removable_files, 2);
    assert_eq!(report.removable_bytes, 100);
}

#[test]
fn a_group_without_copies_frees_nothing() {
    let mut report = BuildReport::default();
    report.count_family(&[Role::Original, Role::Resize], &[10, 3]);
    assert_eq!(report.removable_files, 0);
    assert_eq!(report.removable_bytes, 0);
    assert_eq!(report.by_role.count(Role::Resize), 1);
    assert_eq!(report.multi_member, 1);
}

#[test]
fn each_classified_file_is_counted_under_its_category() {
    let mut report = CategorizeReport::default();
    report.record(Category::Photo);
    report.record(Category::Screenshot);
    report.record(Category::Photo);
    assert_eq!(report.classified, 3);
    assert_eq!(report.by_category, CategoryTally { photo: 2, screenshot: 1, ..CategoryTally::default() });
    assert_eq!(report.by_category.count(Category::Photo), 2);
    assert_eq!(report.by_category.count(Category::Blank), 0);
}
