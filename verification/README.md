# Lokal

A local-first password manager: no account, no cloud, no synchronisation.

`src/` is the library. Everything in it that decides or computes is verified with
Verus; what it takes from other crates (Argon2id, XChaCha20-Poly1305, UUIDs, the
password estimator, wiping, random bytes) stands behind small functions whose
contracts say what is relied on.

| module      | what it holds |
|-------------|---------------|
| `crypto`    | random bytes, key derivation, sealing and opening |
| `format`    | the vault file: header, checks, reading and writing |
| `vault`     | keys, files and entries of a vault |
| `model`     | entries, settings, identifiers |
| `secret`    | secrets and keys that are wiped |
| `generator` | passwords without bias |
| `strength`  | tokens and the assessment of passwords |
| `reading`   | which passwords the estimator can take as a whole |
| `calendar`  | days to dates, moments as sortable text |
| `backup`    | names, ranking and rotation of automatic backups |
| `persist`   | the steps of saving, restoring and backing up |
| `shell`     | what the window may ask for |
| `text`      | strings as sequences of characters |
| `clock`     | the time of day |
| `error`     | the errors and their texts |

`app/` is the program around it: the window, the disk, the documents and two
tools for the command line. `tests/` runs the library.

## What is proved

- A file opens, with the same content and keys, under every password that opens
  the vault it was written of; and what opens is, byte for byte, what its content
  and keys are written as.
- A wrong password and an altered file are answered alike, also where the altered
  part is the costs of the key derivation. No changed byte goes unnoticed, as long
  as nothing in the altered file was forged so that the cipher opens it.
- Changing the master password wraps the vault key anew and changes nothing else.
- What the window is given of an entry does not depend on the password, but for
  its grade.
- Of the strings of random bytes of a password's length, equally many make each
  acceptable password, without a byte dropped.
- Stamps of the same length sort as texts as they do in time; backups of one hour
  share a name, and before the year 10000 those of different hours do not.
- Rotation deletes automatic backups only, and keeps the newest; an automatic
  backup leaves every other file as it was.
- The memory of secrets and keys is wiped when they are dropped.
- A file is never half written, and restoring a backup never loses the vault.

## The content of a vault

The library seals and opens bytes. `app/documents.rs` turns the content of a vault
into JSON and back; fields that an older program did not write have defaults.
