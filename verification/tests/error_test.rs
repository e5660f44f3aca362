use adw::error::AppError;
use std::io;
use std::path::PathBuf;

#[test]
fn messages_name_what_went_wrong() {
    assert_eq!(AppError::HeaderMissing("x.yaml".into()).message(), "x.yaml 缺少 YAML header 结束符");
    assert_eq!(AppError::EncodeFailed("你好".into()).message(), "存在未收录的字，无法自动编码: 你好");
    assert_eq!(
        AppError::RimeDirNotFound.message(),
        "未找到 Rime 用户目录，请通过 -d 指定或设置 RIME_USER_DIR 环境变量"
    );
    assert_eq!(AppError::DictNotFound(PathBuf::from("/a/b")).message(), "码表不存在: /a/b");
    let e: AppError = io::Error::new(io::ErrorKind::Other, "boom").into();
    assert_eq!(e.message(), "IO 错误: boom");
}
