use minmus::fat::{ClusterRead, Entry, FatDriver, SectorRead, FAT_START};

fn boot_sector() -> Vec<u8> {
    let mut b = vec![0u8; 512];
    b[11] = 0x00;
    b[12] = 0x02; // 512 bytes per sector
    b[13] = 4; // sectors per cluster
    b[14] = 1; // reserved sectors
    b[16] = 2; // FAT copies
    b[17] = 0x00;
    b[18] = 0x02; // 512 root entries
    b[22] = 20; // sectors per FAT
    b[39] = 0x78;
    b[40] = 0x56;
    b[41] = 0x34;
    b[42] = 0x12;
    b
}

fn dir_entry(name: &[u8; 11], first_cluster: u16, size: u32) -> Vec<u8> {
    let mut e = vec![0u8; 32];
    e[..11].copy_from_slice(name);
    e[26] = (first_cluster & 0xFF) as u8;
    e[27] = (first_cluster >> 8) as u8;
    e[28..32].copy_from_slice(&size.to_le_bytes());
    e
}

fn loaded() -> FatDriver {
    let mut fat = FatDriver::new();
    fat.load_header(&boot_sector());
    let mut dir = Vec::new();
    dir.extend(dir_entry(b"README  TXT", 5, 3000));
    dir.extend(dir_entry(b"HANOI      ", 12, 100));
    dir.extend(dir_entry(b"README  TXT", 40, 1));
    fat.load_entries(&dir);
    let mut table = vec![0u8; 512];
    let mut link = |from: usize, to: u16| {
        table[2 * from] = (to & 0xFF) as u8;
        table[2 * from + 1] = (to >> 8) as u8;
    };
    link(5, 9);
    link(9, 0xFFFF);
    link(12, 0xFFFF);
    link(20, 21);
    link(21, 20);
    link(30, 300);
    fat.load_table(&table);
    fat
}

fn query(text: &str) -> Vec<char> {
    let mut q: Vec<char> = text.chars().collect();
    q.resize(11, '\0');
    q
}

#[test]
fn header_fields_parse() {
    let fat = loaded();
    assert_eq!(fat.header.bytes_per_sector, 512);
    assert_eq!(fat.header.sectors_per_cluster, 4);
    assert_eq!(fat.header.reserved_sectors, 1);
    assert_eq!(fat.header.fat_count, 2);
    assert_eq!(fat.header.dir_entries_count, 512);
    assert_eq!(fat.header.sectors_per_fat, 20);
    assert_eq!(fat.header.volume_id, 0x1234_5678);
}

#[test]
fn region_locations() {
    let fat = loaded();
    assert_eq!(fat.header_read(), SectorRead { lba: FAT_START, sectors: 1 });
    assert_eq!(fat.table_read(), SectorRead { lba: FAT_START + 1, sectors: 1 });
    assert_eq!(fat.entries_read(), SectorRead { lba: FAT_START + 41, sectors: 32 });
    assert_eq!(fat.cluster_read(2), SectorRead { lba: FAT_START + 73, sectors: 4 });
}

#[test]
fn search_ignores_case() {
    let fat = loaded();
    let upper = fat.search_file(&query("README.TXT"));
    let lower = fat.search_file(&query("readme.txt"));
    assert!(upper.is_present());
    assert_eq!(&upper.name, b"README  TXT");
    assert_eq!(upper.first_cluster_low, 5);
    assert_eq!(lower.first_cluster_low, upper.first_cluster_low);
    assert_eq!(lower.size, upper.size);
}

#[test]
fn search_first_match_wins() {
    let fat = loaded();
    assert_eq!(fat.search_file(&query("ReadMe.Txt")).size, 3000);
}

#[test]
fn search_without_extension() {
    let fat = loaded();
    let e = fat.search_file(&query("hanoi"));
    assert!(e.is_present());
    assert_eq!(e.first_cluster_low, 12);
}

#[test]
fn search_miss_gives_null_entry() {
    let fat = loaded();
    assert!(!fat.search_file(&query("missing")).is_present());
    assert!(!fat.search_file(&query("readme.text")).is_present());
    assert!(!fat.search_file(&query("hano")).is_present());
    assert_eq!(fat.search_file(&query("nothing")).size, 0);
}

#[test]
fn chain_of_two_clusters_reads_two() {
    let fat = loaded();
    let e = fat.search_file(&query("readme.txt"));
    let reads = fat.read_file_to_target(&e).unwrap();
    assert_eq!(
        reads,
        vec![
            ClusterRead { cluster: 5, lba: FAT_START + 73 + 12, sectors: 4, offset: 0 },
            ClusterRead { cluster: 9, lba: FAT_START + 73 + 28, sectors: 4, offset: 2048 },
        ]
    );
}

#[test]
fn first_cluster_only_for_buffer() {
    let fat = loaded();
    let e = fat.search_file(&query("readme.txt"));
    assert_eq!(fat.read_file_to_buffer(&e), Some(SectorRead { lba: FAT_START + 85, sectors: 4 }));
    assert_eq!(fat.read_file_to_buffer(&Entry::null()), None);
}

#[test]
fn broken_chains_are_refused() {
    let fat = loaded();
    let mut e = Entry::null();
    e.first_cluster_low = 20;
    assert_eq!(fat.read_file_to_target(&e), None);
    e.first_cluster_low = 30;
    assert_eq!(fat.read_file_to_target(&e), None);
    e.first_cluster_low = 1;
    assert_eq!(fat.read_file_to_target(&e), None);
}
