pub mod day_01_2024;
pub mod day_01_2025;
pub mod day_02_2025;
pub mod day_03_2025;
pub mod day_04_2025;
pub mod day_05_2025;
pub mod day_06_2025;
pub mod day_07_2025;
