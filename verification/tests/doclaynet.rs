use pdfspatial::taxonomy::{category_name_to_class, category_to_class, RegionClass};

#[test]
fn category_to_class_covers_all_eleven_ids_in_declared_order() {
    assert_eq!(category_to_class(1), Some(RegionClass::Caption));
    assert_eq!(category_to_class(2), Some(RegionClass::Footnote));
    assert_eq!(category_to_class(3), Some(RegionClass::Formula));
    assert_eq!(category_to_class(4), Some(RegionClass::ListItem));
    assert_eq!(category_to_class(5), Some(RegionClass::PageFooter));
    assert_eq!(category_to_class(6), Some(RegionClass::PageHeader));
    assert_eq!(category_to_class(7), Some(RegionClass::Picture));
    assert_eq!(category_to_class(8), Some(RegionClass::SectionHeader));
    assert_eq!(category_to_class(9), Some(RegionClass::Table));
    assert_eq!(category_to_class(10), Some(RegionClass::Text));
    assert_eq!(category_to_class(11), Some(RegionClass::Title));
    assert_eq!(category_to_class(12), None);
    assert_eq!(category_to_class(0), None);
}

#[test]
fn category_name_to_class_matches_id_mapping() {
    for id in 1..=11 {
        let by_id = category_to_class(id).unwrap();
        let name = match by_id {
            RegionClass::Caption => "Caption",
            RegionClass::Footnote => "Footnote",
            RegionClass::Formula => "Formula",
            RegionClass::ListItem => "List-item",
            RegionClass::PageFooter => "Page-footer",
            RegionClass::PageHeader => "Page-header",
            RegionClass::Picture => "Picture",
            RegionClass::SectionHeader => "Section-header",
            RegionClass::Table => "Table",
            RegionClass::Text => "Text",
            RegionClass::Title => "Title",
        };
        assert_eq!(category_name_to_class(name), Some(by_id));
    }
}

#[test]
fn category_lookups_reject_unknown_ids_and_names() {
    assert_eq!(category_to_class(-1), None);
    assert_eq!(category_to_class(i64::MAX), None);
    assert_eq!(category_name_to_class("list-item"), None);
    assert_eq!(category_name_to_class("Caption "), None);
    assert_eq!(category_name_to_class(""), None);
}
