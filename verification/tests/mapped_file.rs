//! Byte images of files.

use floresta_db::layout::FORMAT_PAGE_SIZE as PAGE_SIZE;
use floresta_db::mapped_file::MappedFile;
use floresta_db::Error;

#[test]
fn maps_atomics_and_bytes() -> Result<(), Error> {
    let mut mapping = MappedFile::create(PAGE_SIZE * 2)?;
    assert!(mapping.checked_range(PAGE_SIZE * 2, PAGE_SIZE).is_err());
    mapping.store_u64(0, 42)?;
    mapping.copy_in(PAGE_SIZE, b"mapped")?;
    assert_eq!(mapping.copy_out(PAGE_SIZE, 6)?, b"mapped");
    let reopened = MappedFile::open(mapping.into_bytes(), PAGE_SIZE * 2)?;
    assert_eq!(reopened.load_u64(0)?, 42);
    Ok(())
}

#[test]
fn grows_backing_file_inside_stable_mapping() -> Result<(), Error> {
    let mut mapping = MappedFile::create_growable(PAGE_SIZE * 3, PAGE_SIZE)?;
    assert_eq!(mapping.file_length(), PAGE_SIZE);
    assert!(mapping.copy_out(PAGE_SIZE, 1).is_err());
    assert!(mapping.grow(PAGE_SIZE * 2)?);
    assert!(!mapping.grow(PAGE_SIZE * 2)?);
    mapping.copy_in(PAGE_SIZE, b"grown")?;
    assert_eq!(mapping.as_bytes().len() as u64, PAGE_SIZE * 2);
    let reopened = MappedFile::open_growable(mapping.into_bytes(), PAGE_SIZE * 3)?;
    assert_eq!(reopened.copy_out(PAGE_SIZE, 5)?, b"grown");
    Ok(())
}

#[test]
fn rejects_lengths_that_are_no_pages() {
    assert!(matches!(
        MappedFile::create(PAGE_SIZE + 1),
        Err(Error::InvalidConfig(_))
    ));
    assert!(matches!(
        MappedFile::create_growable(PAGE_SIZE, PAGE_SIZE * 2),
        Err(Error::InvalidConfig(_))
    ));
}
